//! Laws of the edit engine.
//!
//! Each law is proved from the contracts of the functions that it speaks of.

use vstd::prelude::*;
use crate::edits::apply::{lemma_retyped_ids, retyped, road_states_after, schedules_after};
use crate::edits::derived::{
    changed_roads_of, changed_routes_of, first_cmd, lemma_first_cmd, target_of, TargetKind,
};
use crate::edits::log::{common_prefix_len, lemma_common_prefix, MapEdits};
use crate::edits::orchestrate::{
    replay_roads, replay_schedules, replayed, undone, untouched,
};
use crate::edits::{
    cmds_view, ApplyError, EditCmdView, EditEffects, EditIntersectionView, EditRoadView,
};
use crate::ids::{IntersectionID, RoadID, TransitRouteID, TurnID};
use crate::turn::{has_turn, Turn, TurnType};
use crate::map::StreetMap;
use crate::policy::default_stop_sign;
use crate::units::Time;

verus! {

/// Taking back twice is doing nothing: the command that takes back the command
/// that takes back a command is that command.
pub proof fn lemma_undo_undo(cmd: EditCmdView)
    ensures
        cmd.undo().undo() == cmd,
{
}

/// A command followed by the command that takes it back leaves every road in
/// the state that it had, if the command starts from the state that its road
/// is in.
pub proof fn lemma_round_trip_roads(states: Seq<EditRoadView>, cmd: EditCmdView)
    requires
        match cmd {
            EditCmdView::ChangeRoad { r, old, .. } => r.0 < states.len() ==> states[r.0 as int]
                == old,
            _ => true,
        },
    ensures
        road_states_after(road_states_after(states, cmd), cmd.undo()) == states,
{
    assert(road_states_after(road_states_after(states, cmd), cmd.undo()) =~= states);
}

/// A command followed by the command that takes it back leaves every transit
/// route with the schedule that it had, if the command starts from the
/// schedule that its route has.
pub proof fn lemma_round_trip_schedules(schedules: Seq<Seq<Time>>, cmd: EditCmdView)
    requires
        match cmd {
            EditCmdView::ChangeRouteSchedule { id, old, .. } => id.0 < schedules.len()
                ==> schedules[id.0 as int] == old,
            _ => true,
        },
    ensures
        schedules_after(schedules_after(schedules, cmd), cmd.undo()) == schedules,
{
    assert(schedules_after(schedules_after(schedules, cmd), cmd.undo()) =~= schedules);
}

/// A change to the control of an intersection of a sound map followed by the
/// change that takes it back leaves the intersection in the state that it
/// had, with one proviso: a signal does not come back if the intersection was
/// closed in between, since its timing is lost then.
///
/// Here `start` is the map before the two commands, `middle` the map between
/// them and `end` the map after them; `was` is the state that the first
/// command starts from and `new` the state that it leads to.
pub proof fn lemma_round_trip_intersection(
    start: &StreetMap,
    middle: &StreetMap,
    end: &StreetMap,
    i: IntersectionID,
    was: EditIntersectionView,
    new: EditIntersectionView,
)
    requires
        start.has_intersection(i),
        !start.intersections[i.0 as int].spec_is_border(),
        start.intersections[i.0 as int].edit_state() == was,
        was != new,
        start.turns_ok(i.0 as int),
        start.intersections[i.0 as int].id == i,
        !(was is TrafficSignal && new is Closed),
        middle.roads == start.roads,
        end.roads == start.roads,
        middle.intersections.len() == start.intersections.len(),
        end.intersections.len() == start.intersections.len(),
        middle.intersections[i.0 as int].roads == start.intersections[i.0 as int].roads,
        end.intersections[i.0 as int].roads == start.intersections[i.0 as int].roads,
        middle.control_follows(start, i, new, was),
        middle.intersections[i.0 as int].edit_state() != was ==> end.control_follows(
            middle,
            i,
            was,
            new,
        ),
        middle.intersections[i.0 as int].edit_state() == was ==> end.intersections[i.0 as int]
            == middle.intersections[i.0 as int],
    ensures
        end.intersections[i.0 as int].edit_state() == was,
{
}

/// The type that the first `n` entries give to the turn of the given name:
/// that of the last entry for it.
pub open spec fn last_type(entries: Seq<Turn>, id: TurnID, n: int) -> Option<TurnType>
    decreases n,
{
    if n <= 0 {
        None
    } else if entries[n - 1].id == id {
        Some(entries[n - 1].turn_type)
    } else {
        last_type(entries, id, n - 1)
    }
}

/// Where no two turns have the same name, each turn gets the type of the last
/// entry for it, and keeps its type if there is none.
pub proof fn lemma_retyped_by_name(turns: Seq<Turn>, entries: Seq<Turn>, n: int, k: int)
    requires
        0 <= n <= entries.len(),
        0 <= k < turns.len(),
        forall|a: int, b: int|
            0 <= a < turns.len() && 0 <= b < turns.len() && a != b ==> (#[trigger] turns[a]).id
                != (#[trigger] turns[b]).id,
    ensures
        retyped(turns, entries, n).len() == turns.len(),
        retyped(turns, entries, n)[k].id == turns[k].id,
        retyped(turns, entries, n)[k].turn_type == match last_type(entries, turns[k].id, n) {
            Some(t) => t,
            None => turns[k].turn_type,
        },
    decreases n,
{
    lemma_retyped_ids(turns, entries, n);
    if n > 0 {
        lemma_retyped_by_name(turns, entries, n - 1, k);
        lemma_retyped_ids(turns, entries, n - 1);
        let before = retyped(turns, entries, n - 1);
        let e = entries[n - 1];
        if before[k].id == e.id {
            assert forall|j: int| 0 <= j < k implies before[j].id != e.id by {
                assert(turns[j].id != turns[k].id);
            }
        }
    }
}

/// A change to the types of the crossings of an intersection followed by the
/// change that takes it back leaves every turn with the type that it had, if
/// the command starts from the crossings as they are and changes no other
/// turns: no two turns of the intersection have the same name, every entry of
/// `was` is a turn of the intersection as it is, and every entry of `new` is
/// for a turn that `was` has an entry for.
pub proof fn lemma_round_trip_crosswalks(turns: Seq<Turn>, was: Seq<Turn>, new: Seq<Turn>)
    requires
        forall|a: int, b: int|
            0 <= a < turns.len() && 0 <= b < turns.len() && a != b ==> (#[trigger] turns[a]).id
                != (#[trigger] turns[b]).id,
        forall|j: int| 0 <= j < was.len() ==> turns.contains(#[trigger] was[j]),
        forall|j: int| 0 <= j < new.len() ==> has_turn(was, (#[trigger] new[j]).id),
    ensures
        retyped(retyped(turns, new, new.len() as int), was, was.len() as int) == turns,
{
    let middle = retyped(turns, new, new.len() as int);
    let end = retyped(middle, was, was.len() as int);
    lemma_retyped_ids(turns, new, new.len() as int);
    lemma_retyped_ids(middle, was, was.len() as int);
    assert forall|k: int| 0 <= k < turns.len() implies end[k] == turns[k] by {
        lemma_retyped_by_name(turns, new, new.len() as int, k);
        assert forall|a: int, b: int|
            0 <= a < middle.len() && 0 <= b < middle.len() && a != b implies (
        #[trigger] middle[a]).id != (#[trigger] middle[b]).id by {
            assert(turns[a].id != turns[b].id);
        }
        lemma_retyped_by_name(middle, was, was.len() as int, k);
        lemma_last_type(was, turns[k].id, was.len() as int);
        lemma_last_type(new, turns[k].id, new.len() as int);
        match last_type(was, turns[k].id, was.len() as int) {
            Some(ty) => {
                let j = choose|j: int|
                    0 <= j < was.len() && was[j].id == turns[k].id && was[j].turn_type == ty;
                assert(turns.contains(was[j]));
                let w = choose|w: int| 0 <= w < turns.len() && turns[w] == was[j];
                assert(w == k);
            },
            None => {
                match last_type(new, turns[k].id, new.len() as int) {
                    Some(ty) => {
                        let j = choose|j: int|
                            0 <= j < new.len() && new[j].id == turns[k].id && new[j].turn_type
                                == ty;
                        assert(has_turn(was, new[j].id));
                        let w = choose|w: int|
                            0 <= w < was.len() && #[trigger] was[w].id == new[j].id;
                        assert(was[w].id == turns[k].id);
                        assert(false);
                    },
                    None => {},
                }
            },
        }
    }
    assert(end =~= turns);
}

/// On a sound map, a change to the types of the crossings of an intersection
/// followed by the change that takes it back leaves every turn of the
/// intersection as it was, if the command starts from the crossings as they
/// are and changes no other turns.
pub proof fn lemma_round_trip_crosswalks_of(
    map: &StreetMap,
    i: IntersectionID,
    was: Seq<Turn>,
    new: Seq<Turn>,
)
    requires
        map.wf(),
        map.has_intersection(i),
        forall|j: int|
            0 <= j < was.len() ==> map.intersections[i.0 as int].turns@.contains(#[trigger] was[j]),
        forall|j: int| 0 <= j < new.len() ==> has_turn(was, (#[trigger] new[j]).id),
    ensures
        retyped(
            retyped(map.intersections[i.0 as int].turns@, new, new.len() as int),
            was,
            was.len() as int,
        ) == map.intersections[i.0 as int].turns@,
{
    let turns = map.intersections[i.0 as int].turns@;
    assert(map.turns_ok(i.0 as int));
    assert forall|a: int, b: int|
        0 <= a < turns.len() && 0 <= b < turns.len() && a != b implies (#[trigger] turns[a]).id
        != (#[trigger] turns[b]).id by {
        if a < b {
            assert(turns[a].id != turns[b].id);
        } else {
            assert(turns[b].id != turns[a].id);
        }
    }
    lemma_round_trip_crosswalks(turns, was, new);
}

/// The type that entries give to a turn is that of one of the entries for it,
/// and there is none only if there is no entry for it.
pub proof fn lemma_last_type(entries: Seq<Turn>, id: TurnID, n: int)
    requires
        0 <= n <= entries.len(),
    ensures
        match last_type(entries, id, n) {
            Some(ty) => exists|j: int|
                0 <= j < n && entries[j].id == id && entries[j].turn_type == ty,
            None => forall|j: int| 0 <= j < n ==> (#[trigger] entries[j]).id != id,
        },
    decreases n,
{
    if n > 0 {
        lemma_last_type(entries, id, n - 1);
        if entries[n - 1].id == id {
        } else {
            match last_type(entries, id, n - 1) {
                Some(ty) => {
                    let j = choose|j: int|
                        0 <= j < n - 1 && entries[j].id == id && entries[j].turn_type == ty;
                    assert(0 <= j < n && entries[j].id == id && entries[j].turn_type == ty);
                },
                None => {},
            }
        }
    }
}

/// A road that none of the first `n` commands changes is in the state that it
/// was in.
pub proof fn lemma_untargeted_road_stays(
    states: Seq<EditRoadView>,
    cmds: Seq<EditCmdView>,
    r: int,
    n: int,
)
    requires
        0 <= n <= cmds.len(),
        0 <= r < states.len(),
        forall|k: int| 0 <= k < n ==> target_of(#[trigger] cmds[k], TargetKind::Road) != Some(r),
    ensures
        replay_roads(states, cmds, n).len() == states.len(),
        replay_roads(states, cmds, n)[r] == states[r],
    decreases n,
{
    lemma_replay_roads_len(states, cmds, n);
    if n > 0 {
        lemma_untargeted_road_stays(states, cmds, r, n - 1);
        lemma_replay_roads_len(states, cmds, n - 1);
        assert(target_of(cmds[n - 1], TargetKind::Road) != Some(r));
    }
}

/// Commands do not change the number of roads.
pub proof fn lemma_replay_roads_len(states: Seq<EditRoadView>, cmds: Seq<EditCmdView>, n: int)
    ensures
        replay_roads(states, cmds, n).len() == states.len(),
    decreases n,
{
    if n > 0 {
        lemma_replay_roads_len(states, cmds, n - 1);
    }
}

/// A transit route that none of the first `n` commands changes has the
/// schedule that it had.
pub proof fn lemma_untargeted_route_stays(
    schedules: Seq<Seq<Time>>,
    cmds: Seq<EditCmdView>,
    id: int,
    n: int,
)
    requires
        0 <= n <= cmds.len(),
        0 <= id < schedules.len(),
        forall|k: int| 0 <= k < n ==> target_of(#[trigger] cmds[k], TargetKind::Route) != Some(id),
    ensures
        replay_schedules(schedules, cmds, n).len() == schedules.len(),
        replay_schedules(schedules, cmds, n)[id] == schedules[id],
    decreases n,
{
    lemma_replay_schedules_len(schedules, cmds, n);
    if n > 0 {
        lemma_untargeted_route_stays(schedules, cmds, id, n - 1);
        lemma_replay_schedules_len(schedules, cmds, n - 1);
        assert(target_of(cmds[n - 1], TargetKind::Route) != Some(id));
    }
}

/// Commands do not change the number of transit routes.
pub proof fn lemma_replay_schedules_len(schedules: Seq<Seq<Time>>, cmds: Seq<EditCmdView>, n: int)
    ensures
        replay_schedules(schedules, cmds, n).len() == schedules.len(),
    decreases n,
{
    if n > 0 {
        lemma_replay_schedules_len(schedules, cmds, n - 1);
    }
}

/// Where two logs start with the same commands `common` and differ right
/// after them, getting from the one to the other takes back the rest of the
/// one, the last command first, and applies the rest of the other: the
/// commands of the common start are not applied again.
pub proof fn lemma_replayed_after_prefix(
    common: Seq<EditCmdView>,
    rest_current: Seq<EditCmdView>,
    rest_target: Seq<EditCmdView>,
)
    requires
        rest_current.len() == 0 || rest_target.len() == 0 || rest_current[0] != rest_target[0],
    ensures
        common_prefix_len(common + rest_current, common + rest_target) == common.len(),
        replayed(common + rest_current, common + rest_target) == undone(rest_current, 0)
            + rest_target,
    decreases common.len(),
{
    let a = common + rest_current;
    let b = common + rest_target;
    if common.len() == 0 {
        assert(a =~= rest_current);
        assert(b =~= rest_target);
    } else {
        assert(a[0] == b[0]);
        assert(a.drop_first() =~= common.drop_first() + rest_current);
        assert(b.drop_first() =~= common.drop_first() + rest_target);
        lemma_replayed_after_prefix(common.drop_first(), rest_current, rest_target);
    }
    let p = common.len() as int;
    assert(undone(a, p) =~= undone(rest_current, 0));
    assert(b.skip(p) =~= rest_target);
}

/// A border and a closed intersection of a sound map have no turns.
pub proof fn lemma_shut_has_no_turns(map: &StreetMap, i: IntersectionID)
    requires
        map.wf(),
        map.has_intersection(i),
        map.intersections[i.0 as int].spec_is_border()
            || map.intersections[i.0 as int].spec_is_closed(),
    ensures
        map.intersections[i.0 as int].turns@.len() == 0,
{
    assert(map.intersection_ok(i.0 as int));
    assert(map.turns_ok(i.0 as int));
}

/// A transaction leaves borders and closed intersections without turns.
pub proof fn lemma_shut_after_transaction(
    before: &StreetMap,
    after: &StreetMap,
    new_edits: &MapEdits,
    enforce_valid: bool,
    res: Result<EditEffects, ApplyError>,
    i: IntersectionID,
)
    requires
        after.transaction(before, new_edits, enforce_valid, res),
        after.has_intersection(i),
        after.intersections[i.0 as int].spec_is_border()
            || after.intersections[i.0 as int].spec_is_closed(),
    ensures
        after.intersections[i.0 as int].turns@.len() == 0,
{
    lemma_shut_has_no_turns(after, i);
}

/// A turn that was made and taken away again in the course of a transaction
/// is recorded neither as added nor as deleted: what is recorded as added is
/// a turn of the map after the transaction, and what is recorded as deleted
/// was a turn of the map before it.
pub proof fn lemma_turns_reconciled(
    before: &StreetMap,
    after: &StreetMap,
    new_edits: &MapEdits,
    enforce_valid: bool,
    effects: EditEffects,
    t: TurnID,
)
    requires
        after.transaction(before, new_edits, enforce_valid, Ok(effects)),
        !before.has_turn_named(t),
        !after.has_turn_named(t),
    ensures
        !effects.added_turns@.contains(t),
        !effects.deleted_turns@.contains(t),
{
    if new_edits@ == before.edits@ {
        assert(effects.is_empty());
    }
}

/// Applying again the edits that a map has changes nothing: the effects are
/// empty, and the map, with its mark for a new search for paths, is as it
/// was.
pub proof fn lemma_same_edits_do_nothing(
    before: &StreetMap,
    after: &StreetMap,
    new_edits: &MapEdits,
    enforce_valid: bool,
    res: Result<EditEffects, ApplyError>,
)
    requires
        after.transaction(before, new_edits, enforce_valid, res),
        new_edits@ == before.edits@,
    ensures
        res.is_ok(),
        res.unwrap().is_empty(),
        *after == *before,
        after.pathfinder_dirty == before.pathfinder_dirty,
        after.edits_generation == before.edits_generation,
{
}

/// Whether a log starts from the imported states of the roads and routes:
/// every command that changes a road or a route gives as the state before it
/// the state that the commands before it lead to.
pub open spec fn log_coherent(
    road_baselines: Seq<EditRoadView>,
    schedule_baselines: Seq<Seq<Time>>,
    cmds: Seq<EditCmdView>,
) -> bool {
    forall|k: int|
        0 <= k < cmds.len() ==> match #[trigger] cmds[k] {
            EditCmdView::ChangeRoad { r, old, .. } => r.0 < road_baselines.len() ==> replay_roads(
                road_baselines,
                cmds,
                k,
            )[r.0 as int] == old,
            EditCmdView::ChangeRouteSchedule { id, old, .. } => id.0 < schedule_baselines.len()
                ==> replay_schedules(schedule_baselines, cmds, k)[id.0 as int] == old,
            _ => true,
        }
}

impl StreetMap {
    /// Whether the roads and transit routes are in the state that the edits of
    /// the map lead to from the imported state, and those edits start from
    /// the imported state: see [`log_coherent`].
    pub open spec fn follows_log(&self) -> bool {
        let cmds = cmds_view(self.edits.commands@);
        &&& self.road_states() == replay_roads(self.road_baselines(), cmds, cmds.len() as int)
        &&& self.schedules() == replay_schedules(
            self.schedule_baselines(),
            cmds,
            cmds.len() as int,
        )
        &&& log_coherent(self.road_baselines(), self.schedule_baselines(), cmds)
    }
}

/// A map without edits, in which every road and every transit route is as it
/// was imported, follows its log.
pub proof fn lemma_imported_map_follows_log(map: &StreetMap)
    requires
        map.edits.commands@.len() == 0,
        map.road_states() == map.road_baselines(),
        map.schedules() == map.schedule_baselines(),
    ensures
        map.follows_log(),
{
}

/// Replaying depends on the commands replayed only.
pub proof fn lemma_replay_roads_agree(
    states: Seq<EditRoadView>,
    a: Seq<EditCmdView>,
    b: Seq<EditCmdView>,
    n: int,
)
    requires
        0 <= n <= a.len(),
        n <= b.len(),
        forall|k: int| 0 <= k < n ==> a[k] == b[k],
    ensures
        replay_roads(states, a, n) == replay_roads(states, b, n),
    decreases n,
{
    if n > 0 {
        lemma_replay_roads_agree(states, a, b, n - 1);
    }
}

/// Replaying depends on the commands replayed only.
pub proof fn lemma_replay_schedules_agree(
    schedules: Seq<Seq<Time>>,
    a: Seq<EditCmdView>,
    b: Seq<EditCmdView>,
    n: int,
)
    requires
        0 <= n <= a.len(),
        n <= b.len(),
        forall|k: int| 0 <= k < n ==> a[k] == b[k],
    ensures
        replay_schedules(schedules, a, n) == replay_schedules(schedules, b, n),
    decreases n,
{
    if n > 0 {
        lemma_replay_schedules_agree(schedules, a, b, n - 1);
    }
}

/// Taking back the last `u` commands of a coherent log leads to the state
/// that the commands before them lead to.
pub proof fn lemma_undo_roads(
    baselines: Seq<EditRoadView>,
    schedule_baselines: Seq<Seq<Time>>,
    cmds: Seq<EditCmdView>,
    p: int,
    u: int,
)
    requires
        0 <= p <= cmds.len(),
        0 <= u <= cmds.len() - p,
        log_coherent(baselines, schedule_baselines, cmds),
    ensures
        replay_roads(replay_roads(baselines, cmds, cmds.len() as int), undone(cmds, p), u)
            == replay_roads(baselines, cmds, cmds.len() - u),
        replay_schedules(
            replay_schedules(schedule_baselines, cmds, cmds.len() as int),
            undone(cmds, p),
            u,
        ) == replay_schedules(schedule_baselines, cmds, cmds.len() - u),
    decreases u,
{
    if u > 0 {
        lemma_undo_roads(baselines, schedule_baselines, cmds, p, u - 1);
        let k = cmds.len() - u;
        let before = replay_roads(baselines, cmds, k);
        let after = replay_roads(baselines, cmds, k + 1);
        let s_before = replay_schedules(schedule_baselines, cmds, k);
        let s_after = replay_schedules(schedule_baselines, cmds, k + 1);
        lemma_replay_roads_len(baselines, cmds, k);
        lemma_replay_schedules_len(schedule_baselines, cmds, k);
        assert(undone(cmds, p)[u - 1] == cmds[k].undo());
        assert(after == road_states_after(before, cmds[k]));
        assert(road_states_after(after, cmds[k].undo()) =~= before);
        assert(s_after == schedules_after(s_before, cmds[k]));
        assert(schedules_after(s_after, cmds[k].undo()) =~= s_before);
    }
}

/// Replaying the rest of a log from the state that its start leads to leads
/// to the state that the whole log leads to.
pub proof fn lemma_replay_rest(
    baselines: Seq<EditRoadView>,
    schedule_baselines: Seq<Seq<Time>>,
    cmds: Seq<EditCmdView>,
    p: int,
    n: int,
)
    requires
        0 <= p <= cmds.len(),
        0 <= n <= cmds.len() - p,
    ensures
        replay_roads(replay_roads(baselines, cmds, p), cmds.skip(p), n) == replay_roads(
            baselines,
            cmds,
            p + n,
        ),
        replay_schedules(replay_schedules(schedule_baselines, cmds, p), cmds.skip(p), n)
            == replay_schedules(schedule_baselines, cmds, p + n),
    decreases n,
{
    if n > 0 {
        lemma_replay_rest(baselines, schedule_baselines, cmds, p, n - 1);
        assert(cmds.skip(p)[n - 1] == cmds[p + n - 1]);
    }
}

/// Replaying one sequence of commands after another is replaying the two
/// joined.
pub proof fn lemma_replay_joined(
    states: Seq<EditRoadView>,
    schedules: Seq<Seq<Time>>,
    a: Seq<EditCmdView>,
    b: Seq<EditCmdView>,
    n: int,
)
    requires
        0 <= n <= b.len(),
    ensures
        replay_roads(states, a + b, a.len() + n) == replay_roads(
            replay_roads(states, a, a.len() as int),
            b,
            n,
        ),
        replay_schedules(schedules, a + b, a.len() + n) == replay_schedules(
            replay_schedules(schedules, a, a.len() as int),
            b,
            n,
        ),
    decreases n,
{
    if n > 0 {
        lemma_replay_joined(states, schedules, a, b, n - 1);
        assert((a + b)[a.len() + n - 1] == b[n - 1]);
    } else {
        lemma_replay_roads_agree(states, a + b, a, a.len() as int);
        lemma_replay_schedules_agree(schedules, a + b, a, a.len() as int);
    }
}

/// Getting from a coherent log to another log leads from the state that the
/// one leads to, to the state that the other leads to.
pub proof fn lemma_replayed_leads_to_target(
    baselines: Seq<EditRoadView>,
    schedule_baselines: Seq<Seq<Time>>,
    current: Seq<EditCmdView>,
    target: Seq<EditCmdView>,
)
    requires
        log_coherent(baselines, schedule_baselines, current),
    ensures
        replay_roads(
            replay_roads(baselines, current, current.len() as int),
            replayed(current, target),
            replayed(current, target).len() as int,
        ) == replay_roads(baselines, target, target.len() as int),
        replay_schedules(
            replay_schedules(schedule_baselines, current, current.len() as int),
            replayed(current, target),
            replayed(current, target).len() as int,
        ) == replay_schedules(schedule_baselines, target, target.len() as int),
{
    lemma_common_prefix(current, target);
    let p = common_prefix_len(current, target) as int;
    let back = undone(current, p);
    let forth = target.skip(p);
    let top = replay_roads(baselines, current, current.len() as int);
    let s_top = replay_schedules(schedule_baselines, current, current.len() as int);
    lemma_replay_joined(top, s_top, back, forth, forth.len() as int);
    lemma_undo_roads(baselines, schedule_baselines, current, p, current.len() - p);
    lemma_replay_roads_agree(baselines, current, target, p);
    lemma_replay_schedules_agree(schedule_baselines, current, target, p);
    lemma_replay_rest(baselines, schedule_baselines, target, p, target.len() - p);
}

/// A transaction that succeeds on a map that follows its log leaves a map
/// that follows its new log, if the new log starts from the imported states.
pub proof fn lemma_transaction_keeps_log(
    before: &StreetMap,
    after: &StreetMap,
    new_edits: &MapEdits,
    enforce_valid: bool,
    effects: EditEffects,
)
    requires
        after.transaction(before, new_edits, enforce_valid, Ok(effects)),
        before.follows_log(),
        log_coherent(
            before.road_baselines(),
            before.schedule_baselines(),
            cmds_view(new_edits.commands@),
        ),
    ensures
        after.follows_log(),
{
    assert(after.road_baselines() =~= before.road_baselines()) by {
        assert forall|q: int| 0 <= q < after.roads.len() implies after.roads[q].orig@
            == before.roads[q].orig@ by {
            assert(after.roads[q].same_but_state(&before.roads[q]));
        }
    }
    assert(after.schedule_baselines() =~= before.schedule_baselines()) by {
        assert forall|k: int| 0 <= k < after.transit_routes.len() implies after.transit_routes[k].orig_spawn_times@
            == before.transit_routes[k].orig_spawn_times@ by {
            assert(after.transit_routes[k].id == before.transit_routes[k].id);
        }
    }
    if new_edits@ == before.edits@ {
    } else {
        lemma_replayed_leads_to_target(
            before.road_baselines(),
            before.schedule_baselines(),
            cmds_view(before.edits.commands@),
            cmds_view(new_edits.commands@),
        );
    }
}

/// What is recorded as changed is what differs from the imported state: in a
/// map that follows its log, and whose record of changes is up to date, a
/// road is recorded as changed if and only if its state differs from the one
/// it was imported with, and a transit route if and only if its schedule
/// does.
pub proof fn lemma_cache_correct(map: &StreetMap)
    requires
        map.follows_log(),
        map.edits.derived() == map.derived_of(cmds_view(map.edits.commands@)),
    ensures
        forall|r: int|
            0 <= r < map.roads.len() ==> (map.edits.changed_roads@.contains(RoadID(r as usize))
                <==> #[trigger] map.road_states()[r] != map.road_baselines()[r]),
        forall|k: int|
            0 <= k < map.transit_routes.len() ==> (map.edits.changed_routes@.contains(
                TransitRouteID(k as usize),
            ) <==> #[trigger] map.schedules()[k] != map.schedule_baselines()[k]),
{
    let cmds = cmds_view(map.edits.commands@);
    lemma_changed_roads_members(
        cmds,
        map.road_states(),
        map.road_baselines(),
        map.roads.len() as int,
    );
    lemma_changed_routes_members(
        cmds,
        map.schedules(),
        map.schedule_baselines(),
        map.transit_routes.len() as int,
    );
    assert forall|r: int| 0 <= r < map.roads.len() implies (map.edits.changed_roads@.contains(
        RoadID(r as usize),
    ) <==> #[trigger] map.road_states()[r] != map.road_baselines()[r]) by {
        lemma_first_cmd(cmds, TargetKind::Road, r, cmds.len() as int);
        if first_cmd(cmds, TargetKind::Road, r, cmds.len() as int).is_none() {
            lemma_untargeted_road_stays(map.road_baselines(), cmds, r, cmds.len() as int);
        }
    }
    assert forall|k: int| 0 <= k < map.transit_routes.len() implies (
    map.edits.changed_routes@.contains(TransitRouteID(k as usize))
        <==> #[trigger] map.schedules()[k]
        != map.schedule_baselines()[k]) by {
        lemma_first_cmd(cmds, TargetKind::Route, k, cmds.len() as int);
        if first_cmd(cmds, TargetKind::Route, k, cmds.len() as int).is_none() {
            lemma_untargeted_route_stays(map.schedule_baselines(), cmds, k, cmds.len() as int);
        }
    }
}

/// The roads recorded as changed among the first `n` are those that a command
/// changes and whose state differs from the imported one.
pub proof fn lemma_changed_roads_members(
    cmds: Seq<EditCmdView>,
    states: Seq<EditRoadView>,
    baselines: Seq<EditRoadView>,
    n: int,
)
    requires
        0 <= n <= usize::MAX,
    ensures
        forall|r: int|
            0 <= r <= usize::MAX ==> (#[trigger] changed_roads_of(
                cmds,
                states,
                baselines,
                n,
            ).contains(RoadID(r as usize)) <==> (r < n && first_cmd(
                cmds,
                TargetKind::Road,
                r,
                cmds.len() as int,
            ).is_some() && states[r] != baselines[r])),
    decreases n,
{
    if n > 0 {
        lemma_changed_roads_members(cmds, states, baselines, n - 1);
        let before = changed_roads_of(cmds, states, baselines, n - 1);
        crate::id_set::lemma_push_contains(before, RoadID((n - 1) as usize));
        assert forall|r: int| 0 <= r <= usize::MAX implies (#[trigger] changed_roads_of(
            cmds,
            states,
            baselines,
            n,
        ).contains(RoadID(r as usize)) <==> (r < n && first_cmd(
            cmds,
            TargetKind::Road,
            r,
            cmds.len() as int,
        ).is_some() && states[r] != baselines[r])) by {
            assert(before.contains(RoadID(r as usize)) <==> (r < n - 1 && first_cmd(
                cmds,
                TargetKind::Road,
                r,
                cmds.len() as int,
            ).is_some() && states[r] != baselines[r]));
            if r != n - 1 {
                assert(RoadID(r as usize) != RoadID((n - 1) as usize));
            }
        }
    } else {
        assert forall|r: int| 0 <= r <= usize::MAX implies !(#[trigger] changed_roads_of(
            cmds,
            states,
            baselines,
            n,
        ).contains(RoadID(r as usize))) by {}
    }
}

/// The transit routes recorded as changed among the first `n` are those that
/// a command changes and whose schedule differs from the imported one.
pub proof fn lemma_changed_routes_members(
    cmds: Seq<EditCmdView>,
    schedules: Seq<Seq<Time>>,
    baselines: Seq<Seq<Time>>,
    n: int,
)
    requires
        0 <= n <= usize::MAX,
    ensures
        forall|r: int|
            0 <= r <= usize::MAX ==> (#[trigger] changed_routes_of(
                cmds,
                schedules,
                baselines,
                n,
            ).contains(TransitRouteID(r as usize)) <==> (r < n && first_cmd(
                cmds,
                TargetKind::Route,
                r,
                cmds.len() as int,
            ).is_some() && schedules[r] != baselines[r])),
    decreases n,
{
    if n > 0 {
        lemma_changed_routes_members(cmds, schedules, baselines, n - 1);
        let before = changed_routes_of(cmds, schedules, baselines, n - 1);
        crate::id_set::lemma_push_contains(before, TransitRouteID((n - 1) as usize));
        assert forall|r: int| 0 <= r <= usize::MAX implies (#[trigger] changed_routes_of(
            cmds,
            schedules,
            baselines,
            n,
        ).contains(TransitRouteID(r as usize)) <==> (r < n && first_cmd(
            cmds,
            TargetKind::Route,
            r,
            cmds.len() as int,
        ).is_some() && schedules[r] != baselines[r])) by {
            assert(before.contains(TransitRouteID(r as usize)) <==> (r < n - 1 && first_cmd(
                cmds,
                TargetKind::Route,
                r,
                cmds.len() as int,
            ).is_some() && schedules[r] != baselines[r]));
            if r != n - 1 {
                assert(TransitRouteID(r as usize) != TransitRouteID((n - 1) as usize));
            }
        }
    } else {
        assert forall|r: int| 0 <= r <= usize::MAX implies !(#[trigger] changed_routes_of(
            cmds,
            schedules,
            baselines,
            n,
        ).contains(TransitRouteID(r as usize))) by {}
    }
}

} // verus!
