//! Replacing the edits of a map by others.

use vstd::prelude::*;
use crate::edits::apply::{
    changes_road, cmd_touches, first_unknown, names_unknown, neighbours_of, retyped, road_near,
    road_states_after, schedules_after, signal_misfit,
};
use crate::edits::lanes::lanes_upto;
use crate::edits::EditIntersectionView;
use crate::ids::LaneID;
use crate::policy::{movements_view, timing_fits};
use crate::turn::Turn;
use crate::edits::log::{common_prefix, common_prefix_len, lemma_common_prefix, MapEdits};
use crate::edits::turns::turn_ids;
use crate::edits::{cmds_view, ApplyError, EditCmd, EditCmdView, EditEffects, EditRoadView};
use crate::id_set::IdSet;
use crate::ids::{BuildingID, IntersectionID, ParkingLotID, RoadID, TransitStopID, TurnID};
use crate::map::StreetMap;
use crate::road::Road;
use crate::services::Geometry;
use crate::turn::{find_turn, has_turn};
use crate::units::Time;
use crate::zone::Zone;

verus! {

/// The commands of a log from position `p` on, the last first, each turned
/// into the command that takes it back.
pub open spec fn undone(cmds: Seq<EditCmdView>, p: int) -> Seq<EditCmdView> {
    Seq::new((cmds.len() - p) as nat, |k: int| cmds[cmds.len() - 1 - k].undo())
}

/// The commands that are applied to get from the log `current` to the log
/// `target`: what the logs have in common at their start stays, the rest of
/// `current` is taken back, the last command first, and the rest of `target`
/// is applied in its order.
pub open spec fn replayed(current: Seq<EditCmdView>, target: Seq<EditCmdView>) -> Seq<EditCmdView> {
    let p = common_prefix_len(current, target) as int;
    undone(current, p) + target.skip(p)
}

/// The states of all roads after the first `n` of the given commands.
pub open spec fn replay_roads(states: Seq<EditRoadView>, cmds: Seq<EditCmdView>, n: int) -> Seq<
    EditRoadView,
>
    decreases n,
{
    if n <= 0 {
        states
    } else {
        road_states_after(replay_roads(states, cmds, n - 1), cmds[n - 1])
    }
}

/// The schedules of all transit routes after the first `n` of the given
/// commands.
pub open spec fn replay_schedules(schedules: Seq<Seq<Time>>, cmds: Seq<EditCmdView>, n: int) -> Seq<
    Seq<Time>,
>
    decreases n,
{
    if n <= 0 {
        schedules
    } else {
        schedules_after(replay_schedules(schedules, cmds, n - 1), cmds[n - 1])
    }
}

/// Whether one of the first `n` commands changes the given road.
pub open spec fn road_changed_by(cmds: Seq<EditCmdView>, road: RoadID, n: int) -> bool {
    exists|k: int| 0 <= k < n && changes_road(#[trigger] cmds[k], road)
}

/// Whether none of the first `n` commands might change intersection `j`.
pub open spec fn untouched(cmds: Seq<EditCmdView>, roads: Seq<Road>, j: int, n: int) -> bool {
    forall|k: int| 0 <= k < n ==> !cmd_touches(#[trigger] cmds[k], roads, j)
}

/// Whether the command at position `n` changes the state that road `r` has
/// when the command is applied.
pub open spec fn road_remade_at(
    states: Seq<EditRoadView>,
    cmds: Seq<EditCmdView>,
    n: int,
    r: RoadID,
) -> bool {
    match cmds[n] {
        EditCmdView::ChangeRoad { r: q, new, .. } => q == r && r.0 < states.len() && replay_roads(
            states,
            cmds,
            n,
        )[r.0 as int] != new,
        _ => false,
    }
}

/// Whether one of the first `n` commands changes the state that road `r`
/// has when the command is applied.
pub open spec fn road_remade(states: Seq<EditRoadView>, cmds: Seq<EditCmdView>, r: RoadID, n: int) -> bool {
    exists|k: int| 0 <= k < n && #[trigger] road_remade_at(states, cmds, k, r)
}

/// Whether none of the first `n` commands might change road number `q`.
pub open spec fn road_far(cmds: Seq<EditCmdView>, roads: Seq<Road>, q: int, n: int) -> bool {
    forall|k: int| 0 <= k < n ==> !road_near(#[trigger] cmds[k], roads, q)
}

/// Whether none of the first `n` commands changes a road.
pub open spec fn no_roads(cmds: Seq<EditCmdView>, n: int) -> bool {
    forall|k: int| 0 <= k < n ==> !((#[trigger] cmds[k]) is ChangeRoad)
}

/// Whether the command leads to the state that its target has in the map.
pub open spec fn leads_here(cmd: EditCmdView, map: &StreetMap) -> bool {
    match cmd {
        EditCmdView::ChangeRoad { r, new, .. } => map.roads[r.0 as int].edit_state() == new,
        EditCmdView::ChangeIntersection { i, new, .. } => map.intersections[i.0 as int].edit_state()
            == new,
        EditCmdView::ChangeCrosswalks { i, new, .. } => map.intersections[i.0 as int].crosswalks()
            == new,
        EditCmdView::ChangeRouteSchedule { id, new, .. } => map.transit_routes[id.0 as int].spawn_times@
            == new,
    }
}

/// Whether each of the first `n` commands leads to the state that its target
/// has in the map: see [`leads_here`].
pub open spec fn idle(cmds: Seq<EditCmdView>, map: &StreetMap, n: int) -> bool {
    forall|k: int| 0 <= k < n ==> leads_here(#[trigger] cmds[k], map)
}

/// Whether a command may make the turns of intersection `j` anew: it changes
/// a road that ends there, or it closes the intersection or opens it again.
pub open spec fn remakes_turns(cmd: EditCmdView, roads: Seq<Road>, j: int) -> bool {
    match cmd {
        EditCmdView::ChangeRoad { .. } => cmd_touches(cmd, roads, j),
        EditCmdView::ChangeIntersection { i, new, old: was } => i.0 == j && (was is Closed
            || new is Closed),
        _ => false,
    }
}

/// Whether none of the first `n` commands may make the turns of
/// intersection `j` anew.
pub open spec fn turns_kept(cmds: Seq<EditCmdView>, roads: Seq<Road>, j: int, n: int) -> bool {
    forall|k: int| 0 <= k < n ==> !remakes_turns(#[trigger] cmds[k], roads, j)
}

/// Whether every entry names one of the turns.
pub open spec fn all_known(turns: Seq<Turn>, entries: Set<Turn>) -> bool {
    forall|x: Turn| #[trigger] entries.contains(x) ==> has_turn(turns, x.id)
}

/// Whether the command at position `n` is sure to succeed, whatever the
/// geometry does:
///
/// - a change to a transit schedule;
/// - a change of an intersection to stop signs or to closed;
/// - a change of an intersection that is not opened again by it to a signal
///   whose timing fits the movements that the intersection has in `old`,
///   where no command before it may have made its turns anew;
/// - a change to the crossings of an intersection that names only turns
///   which the intersection has in `old`, where no command before it may
///   have made its turns anew.
pub open spec fn sure_at(cmds: Seq<EditCmdView>, old: &StreetMap, n: int) -> bool {
    match cmds[n] {
        EditCmdView::ChangeRoad { .. } => false,
        EditCmdView::ChangeRouteSchedule { .. } => true,
        EditCmdView::ChangeIntersection { i, new, old: was } => match new {
            EditIntersectionView::TrafficSignal(raw) => !(was is Closed) && turns_kept(
                cmds,
                old.roads@,
                i.0 as int,
                n,
            ) && timing_fits(raw, movements_view(old.intersections[i.0 as int].movements@)),
            _ => true,
        },
        EditCmdView::ChangeCrosswalks { i, new, .. } => turns_kept(cmds, old.roads@, i.0 as int, n)
            && all_known(old.intersections[i.0 as int].turns@, new),
    }
}

/// Whether each of the first `n` commands is sure to succeed: see
/// [`sure_at`].
pub open spec fn sure_upto(cmds: Seq<EditCmdView>, old: &StreetMap, n: int) -> bool {
    forall|k: int| 0 <= k < n ==> #[trigger] sure_at(cmds, old, k)
}

/// Whether the command at position `n` is sure to fail if it is reached: no
/// command before it touches its intersection, which is not in the state of
/// the command already, and
///
/// - the command gives the intersection, without opening it again, a signal
///   whose timing does not fit the movements of the intersection; or
/// - the command names a crossing that the intersection does not have.
pub open spec fn fails_at(cmds: Seq<EditCmdView>, old: &StreetMap, n: int) -> bool {
    match cmds[n] {
        EditCmdView::ChangeIntersection { i, new, old: was } => {
            &&& untouched(cmds, old.roads@, i.0 as int, n)
            &&& old.intersections[i.0 as int].edit_state() != new
            &&& !(was is Closed)
            &&& signal_misfit(new, movements_view(old.intersections[i.0 as int].movements@))
        },
        EditCmdView::ChangeCrosswalks { i, new, .. } => {
            &&& untouched(cmds, old.roads@, i.0 as int, n)
            &&& old.intersections[i.0 as int].crosswalks() != new
            &&& !all_known(old.intersections[i.0 as int].turns@, new)
        },
        _ => false,
    }
}

/// Whether `e` is the error with which the command fails on the map `old`:
/// a signal that does not fit its intersection, or a crossing named by the
/// command that the intersection does not have.
pub open spec fn failure(cmd: EditCmdView, old: &StreetMap, e: ApplyError) -> bool {
    match cmd {
        EditCmdView::ChangeIntersection { i, .. } => e == ApplyError::SignalDoesNotFit(i),
        EditCmdView::ChangeCrosswalks { i, new, .. } => exists|x: Turn| #[trigger]
            new.contains(x) && !has_turn(old.intersections[i.0 as int].turns@, x.id) && e
                == ApplyError::UnknownTurn(x.id),
        _ => false,
    }
}

/// Whether the command can be the one that failed with the error `e`: a
/// change to a road that ends at the intersection for which the geometry
/// gave no shape; a change of the intersection to the signal that does not
/// fit; a change to crossings that names the unknown turn.
pub open spec fn blamed(cmd: EditCmdView, roads: Seq<Road>, e: ApplyError) -> bool {
    match e {
        ApplyError::NoIntersectionShape(i) => cmd is ChangeRoad && cmd_touches(
            cmd,
            roads,
            i.0 as int,
        ),
        ApplyError::SignalDoesNotFit(i) => match cmd {
            EditCmdView::ChangeIntersection { i: at, new, .. } => at == i && new is TrafficSignal,
            _ => false,
        },
        ApplyError::UnknownTurn(t) => match cmd {
            EditCmdView::ChangeCrosswalks { new, .. } => exists|x: Turn| #[trigger]
                new.contains(x) && x.id == t,
            _ => false,
        },
        ApplyError::OrphanedStop(_) => false,
    }
}

impl EditEffects {
    /// Whether the effects record a change to the lanes of road `r` of the
    /// map `old`, which is `new` now: the road and the roads that meet it are
    /// changed, the lanes that it had are deleted, the intersections at its
    /// ends are changed, and their turns were made anew.
    pub open spec fn road_recorded(&self, old: &StreetMap, new: &StreetMap, r: RoadID) -> bool {
        let src_i = old.roads[r.0 as int].src_i;
        let dst_i = old.roads[r.0 as int].dst_i;
        &&& self.changed_roads@.contains(r)
        &&& neighbours_of(old, r).subset_of(self.changed_roads@)
        &&& lanes_upto(r, old.roads[r.0 as int].lanes.len() as int).subset_of(self.deleted_lanes@)
        &&& self.changed_intersections@.contains(src_i)
        &&& self.changed_intersections@.contains(dst_i)
        &&& self.turns_remade(old, new, src_i)
        &&& self.turns_remade(old, new, dst_i)
    }
}

impl StreetMap {
    /// What holds of the map and the effects once the first `n` of the
    /// commands are applied to the map `old`:
    ///
    /// - every road whose state one of them changed is recorded: see
    ///   [`EditEffects::road_recorded`];
    /// - every other road has as many lanes as it had;
    /// - the deleted lanes are modified lanes;
    /// - a road that none of them might change is as it was;
    /// - if none of them changes a road, no road is recorded as changed and
    ///   no lane as modified;
    /// - an intersection whose turns none of them may have made anew has
    ///   turns of the same names, and the same movements;
    /// - none of them was sure to fail;
    /// - if each of them leads where its target was, nothing has changed.
    pub open spec fn replay_inv(
        &self,
        old: &StreetMap,
        effects: &EditEffects,
        cmds: Seq<EditCmdView>,
        n: int,
    ) -> bool {
        &&& forall|r: RoadID| #[trigger]
            road_remade(old.road_states(), cmds, r, n) ==> effects.road_recorded(old, self, r)
        &&& forall|r: int|
            0 <= r < old.roads.len() && !road_remade(
                old.road_states(),
                cmds,
                RoadID(r as usize),
                n,
            ) ==> (#[trigger] self.roads[r]).lanes.len() == old.roads[r].lanes.len()
        &&& effects.deleted_lanes@.subset_of(effects.modified_lanes@)
        &&& forall|q: int|
            0 <= q < old.roads.len() && road_far(cmds, old.roads@, q, n) ==> #[trigger] self.roads[q]
                == old.roads[q]
        &&& no_roads(cmds, n) ==> effects.changed_roads@ == Set::<RoadID>::empty()
            && effects.modified_lanes@ == Set::<LaneID>::empty()
        &&& forall|j: int|
            0 <= j < old.intersections.len() && turns_kept(cmds, old.roads@, j, n) ==> turn_ids(
                (#[trigger] self.intersections[j]).turns@,
            ) == turn_ids(old.intersections[j].turns@) && self.intersections[j].movements
                == old.intersections[j].movements
        &&& forall|k: int| 0 <= k < n ==> !#[trigger] fails_at(cmds, old, k)
        &&& idle(cmds, old, n) ==> self.roads == old.roads && self.intersections
            == old.intersections && self.schedules() == old.schedules() && effects.is_empty()
    }
}

/// Turns with the same names in the same places have the same names.
pub proof fn lemma_same_ids(a: Seq<Turn>, b: Seq<Turn>)
    requires
        a.len() == b.len(),
        forall|k: int| 0 <= k < a.len() ==> (#[trigger] a[k]).id == b[k].id,
    ensures
        turn_ids(a) == turn_ids(b),
{
    assert forall|t: TurnID| turn_ids(a).contains(t) <==> turn_ids(b).contains(t) by {
        if has_turn(a, t) {
            let k = choose|k: int| 0 <= k < a.len() && #[trigger] a[k].id == t;
            assert(b[k].id == t);
        }
        if has_turn(b, t) {
            let k = choose|k: int| 0 <= k < b.len() && #[trigger] b[k].id == t;
            assert(a[k].id == t);
        }
    }
    assert(turn_ids(a) =~= turn_ids(b));
}

/// Where an entry names an unknown turn, the first unknown name is the name
/// of such an entry.
pub proof fn lemma_first_unknown(turns: Seq<Turn>, entries: Seq<Turn>, k: int)
    requires
        0 <= k,
        exists|j: int| k <= j < entries.len() && !has_turn(turns, #[trigger] entries[j].id),
    ensures
        exists|j: int|
            k <= j < entries.len() && !has_turn(turns, #[trigger] entries[j].id) && first_unknown(
                turns,
                entries,
                k,
            ) == entries[j].id,
    decreases entries.len() - k,
{
    let w = choose|j: int| k <= j < entries.len() && !has_turn(turns, #[trigger] entries[j].id);
    if !has_turn(turns, entries[k].id) {
        assert(first_unknown(turns, entries, k) == entries[k].id);
    } else {
        assert(w > k);
        assert(k + 1 < entries.len());
        assert(!has_turn(turns, entries[w].id));
        lemma_first_unknown(turns, entries, k + 1);
        let j = choose|j: int|
            k + 1 <= j < entries.len() && !has_turn(turns, #[trigger] entries[j].id)
                && first_unknown(turns, entries, k + 1) == entries[j].id;
        assert(!has_turn(turns, entries[j].id));
    }
}

/// The entries name an unknown turn if and only if not all of them, taken as
/// a set, are known.
pub proof fn lemma_known_entries(turns: Seq<Turn>, entries: Seq<Turn>)
    ensures
        names_unknown(turns, entries) == !all_known(turns, entries.to_set()),
{
    if names_unknown(turns, entries) {
        let k = choose|k: int| 0 <= k < entries.len() && !has_turn(turns, #[trigger] entries[k].id);
        assert(entries.to_set().contains(entries[k]));
    }
    if !all_known(turns, entries.to_set()) {
        let x = choose|x: Turn| #[trigger] entries.to_set().contains(x) && !has_turn(turns, x.id);
        assert(entries.contains(x));
        let k = choose|k: int| 0 <= k < entries.len() && entries[k] == x;
        assert(!has_turn(turns, entries[k].id));
    }
}

/// The kinds of state that an intersection can be in.
pub ghost enum StateKind {
    Signs,
    Signal,
    Shut,
}

/// The kind of a state of an intersection.
pub open spec fn kind_of(state: EditIntersectionView) -> StateKind {
    match state {
        EditIntersectionView::StopSign(_) => StateKind::Signs,
        EditIntersectionView::TrafficSignal(_) => StateKind::Signal,
        EditIntersectionView::Closed => StateKind::Shut,
    }
}

/// The kinds of state of all intersections after the first `n` of the given
/// commands: a command that changes an intersection leads to the kind of its
/// new state, and no other command changes the kind.
pub open spec fn replay_kinds(kinds: Seq<StateKind>, cmds: Seq<EditCmdView>, n: int) -> Seq<
    StateKind,
>
    decreases n,
{
    if n <= 0 {
        kinds
    } else {
        let before = replay_kinds(kinds, cmds, n - 1);
        match cmds[n - 1] {
            EditCmdView::ChangeIntersection { i, new, .. } => if i.0 < before.len() {
                before.update(i.0 as int, kind_of(new))
            } else {
                before
            },
            _ => before,
        }
    }
}

/// Whether a command may set up intersection `j` anew: it changes the
/// intersection, or a road that ends there.
pub open spec fn resets(cmd: EditCmdView, roads: Seq<Road>, j: int) -> bool {
    match cmd {
        EditCmdView::ChangeRoad { .. } => cmd_touches(cmd, roads, j),
        EditCmdView::ChangeIntersection { i, .. } => i.0 == j,
        _ => false,
    }
}

/// Whether the command at position `k` gives intersection `j` a signal,
/// without opening it again, and none of the commands after it, up to
/// position `n`, may set the intersection up anew.
pub open spec fn signal_kept(cmds: Seq<EditCmdView>, roads: Seq<Road>, j: int, k: int, n: int) -> bool {
    match cmds[k] {
        EditCmdView::ChangeIntersection { i, new, old: was } => i.0 == j && new is TrafficSignal
            && !(was is Closed) && forall|m: int| k < m < n ==> !resets(#[trigger] cmds[m], roads, j),
        _ => false,
    }
}

/// The state that a command leads an intersection to.
pub open spec fn new_state(cmd: EditCmdView) -> EditIntersectionView {
    match cmd {
        EditCmdView::ChangeIntersection { new, .. } => new,
        _ => EditIntersectionView::Closed,
    }
}

/// The intersection that a command changes, or whose crossings it changes.
pub open spec fn intersection_of(cmd: EditCmdView) -> IntersectionID {
    match cmd {
        EditCmdView::ChangeIntersection { i, .. } => i,
        EditCmdView::ChangeCrosswalks { i, .. } => i,
        _ => IntersectionID(0),
    }
}

/// Whether the command at position `k` is known to meet its intersection in
/// another state than the one it leads to: the kind of state differs, or no
/// command before it touches the intersection, whose state or crossings in
/// `old` differ.
pub open spec fn meets_other(cmds: Seq<EditCmdView>, old: &StreetMap, k: int) -> bool {
    match cmds[k] {
        EditCmdView::ChangeIntersection { i, new, .. } => old.has_intersection(i) && (replay_kinds(
            old.state_kinds(),
            cmds,
            k,
        )[i.0 as int] != kind_of(new) || (untouched(cmds, old.roads@, i.0 as int, k)
            && old.intersections[i.0 as int].edit_state() != new)),
        EditCmdView::ChangeCrosswalks { i, new, .. } => old.has_intersection(i) && untouched(
            cmds,
            old.roads@,
            i.0 as int,
            k,
        ) && old.intersections[i.0 as int].crosswalks() != new,
        _ => false,
    }
}

impl StreetMap {
    /// The kind of state of every intersection.
    pub open spec fn state_kinds(&self) -> Seq<StateKind> {
        Seq::new(self.intersections@.len(), |j: int| kind_of(self.intersections[j].edit_state()))
    }

    /// What holds of the intersections and the effects once the first `n` of
    /// the commands are applied to the map `old`:
    ///
    /// - the kind of state of every intersection is what the commands make
    ///   of it: see [`replay_kinds`];
    /// - an intersection that a command gave a signal, and that was not set
    ///   up anew since, is in the state of that command: see
    ///   [`signal_kept`];
    /// - every intersection is recorded as changed that a command met in
    ///   another state than the one it leads to: see [`meets_other`].
    pub open spec fn replay_states(
        &self,
        old: &StreetMap,
        effects: &EditEffects,
        cmds: Seq<EditCmdView>,
        n: int,
    ) -> bool {
        &&& self.state_kinds() == replay_kinds(old.state_kinds(), cmds, n)
        &&& forall|j: int, k: int|
            0 <= j < old.intersections.len() && 0 <= k < n && #[trigger] signal_kept(
                cmds,
                old.roads@,
                j,
                k,
                n,
            ) ==> self.intersections[j].edit_state() == new_state(cmds[k])
        &&& forall|k: int|
            0 <= k < n && #[trigger] meets_other(cmds, old, k)
                ==> effects.changed_intersections@.contains(intersection_of(cmds[k]))
    }
}

/// Commands do not change the number of intersections.
pub proof fn lemma_replay_kinds_len(kinds: Seq<StateKind>, cmds: Seq<EditCmdView>, n: int)
    ensures
        replay_kinds(kinds, cmds, n).len() == kinds.len(),
    decreases n,
{
    if n > 0 {
        lemma_replay_kinds_len(kinds, cmds, n - 1);
    }
}

/// One more command that succeeded keeps what holds of the intersections
/// during a replay: see [`StreetMap::replay_states`].
pub proof fn lemma_replay_states_step(
    old: &StreetMap,
    before: &StreetMap,
    after: &StreetMap,
    e_before: &EditEffects,
    e_after: &EditEffects,
    cmds: Seq<EditCmdView>,
    n: int,
    cmd: EditCmd,
)
    requires
        0 <= n < cmds.len(),
        cmds[n] == cmd@,
        old.wf(),
        before.wf(),
        before.edited_from(old),
        before.has_target(cmd),
        before.replay_states(old, e_before, cmds, n),
        forall|j: int|
            0 <= j < old.intersections.len() && untouched(cmds, old.roads@, j, n)
                ==> #[trigger] before.intersections[j] == old.intersections[j],
        cmd.outcome(e_before, before, e_after, after, Ok(())),
    ensures
        after.replay_states(old, e_after, cmds, n + 1),
{
    let kinds = old.state_kinds();
    lemma_replay_kinds_len(kinds, cmds, n);
    lemma_replay_kinds_len(kinds, cmds, n + 1);
    assert(after.intersections.len() == old.intersections.len());
    assert forall|j: int| 0 <= j < old.intersections.len() implies after.state_kinds()[j]
        == replay_kinds(kinds, cmds, n + 1)[j] by {
        assert(before.state_kinds()[j] == replay_kinds(kinds, cmds, n)[j]);
        lemma_touches_stays(old, before, cmds[n], j);
        lemma_state_by_cmd(before, after, e_before, e_after, cmd, j);
    }
    assert(after.state_kinds() =~= replay_kinds(kinds, cmds, n + 1));
    assert forall|j: int, k: int|
        0 <= j < old.intersections.len() && 0 <= k < n + 1 && #[trigger] signal_kept(
            cmds,
            old.roads@,
            j,
            k,
            n + 1,
        ) implies after.intersections[j].edit_state() == new_state(cmds[k]) by {
        lemma_touches_stays(old, before, cmds[n], j);
        lemma_state_by_cmd(before, after, e_before, e_after, cmd, j);
        if k < n {
            assert(!resets(cmds[n], old.roads@, j));
            assert(signal_kept(cmds, old.roads@, j, k, n));
        }
    }
    assert forall|k: int| 0 <= k < n + 1 && #[trigger] meets_other(cmds, old, k) implies e_after.changed_intersections@.contains(
        intersection_of(cmds[k]),
    ) by {
        if k < n {
            assert(e_before.changed_intersections@.contains(intersection_of(cmds[k])));
        } else {
            let i = intersection_of(cmds[n]);
            assert(before.state_kinds()[i.0 as int] == kind_of(
                before.intersections[i.0 as int].edit_state(),
            ));
            assert(!before.already_applied(cmd));
        }
    }
}

/// What a command that succeeded makes of the state of intersection `j`.
pub proof fn lemma_state_by_cmd(
    before: &StreetMap,
    after: &StreetMap,
    e_before: &EditEffects,
    e_after: &EditEffects,
    cmd: EditCmd,
    j: int,
)
    requires
        before.wf(),
        before.has_target(cmd),
        0 <= j < before.intersections.len(),
        cmd.outcome(e_before, before, e_after, after, Ok(())),
    ensures
        match cmd@ {
            EditCmdView::ChangeIntersection { i, new, old: was } => if i.0 == j {
                kind_of(after.intersections[j].edit_state()) == kind_of(new) && (new is TrafficSignal
                    && !(was is Closed) ==> after.intersections[j].edit_state() == new)
            } else {
                after.intersections[j] == before.intersections[j]
            },
            _ => kind_of(after.intersections[j].edit_state()) == kind_of(
                before.intersections[j].edit_state(),
            ) && (!cmd_touches(cmd@, before.roads@, j) ==> after.intersections[j].edit_state()
                == before.intersections[j].edit_state()),
        },
        cmd@ is ChangeCrosswalks ==> after.intersections[j].edit_state()
            == before.intersections[j].edit_state(),
{
    if before.already_applied(cmd) || !cmd_touches(cmd@, before.roads@, j) {
    } else {
        match cmd {
            EditCmd::ChangeIntersection { i, new, old: was } => {
                assert(after.control_follows(before, i, new@, was@));
            },
            EditCmd::ChangeRoad { r, old: _, new } => {
                assert(before.road_ok(r.0 as int));
                let src_i = before.roads[r.0 as int].src_i;
                let dst_i = before.roads[r.0 as int].dst_i;
                assert(IntersectionID(j as usize) == src_i || IntersectionID(j as usize) == dst_i);
                assert(after.end_remade(before, src_i));
                assert(after.end_remade(before, dst_i));
            },
            _ => {},
        }
    }
}

/// Whether no two of the entries are for one turn.
pub open spec fn plain(entries: Set<Turn>) -> bool {
    forall|a: Turn, b: Turn|
        #![trigger entries.contains(a), entries.contains(b)]
        entries.contains(a) && entries.contains(b) && a.id == b.id ==> a == b
}

/// Whether one of the entries is for the turn of the given name.
pub open spec fn has_entry(entries: Set<Turn>, id: TurnID) -> bool {
    exists|e: Turn| #[trigger] entries.contains(e) && e.id == id
}

/// The entry for the turn of the given name, where there is one.
pub open spec fn entry_for(entries: Set<Turn>, id: TurnID) -> Turn {
    choose|e: Turn| #[trigger] entries.contains(e) && e.id == id
}

/// The turns with the types that the entries give them: a turn that has an
/// entry becomes that entry, and a turn that has none stays as it is.
pub open spec fn retyped_by(turns: Seq<Turn>, entries: Set<Turn>) -> Seq<Turn> {
    Seq::new(
        turns.len(),
        |k: int|
            if has_entry(entries, turns[k].id) {
                entry_for(entries, turns[k].id)
            } else {
                turns[k]
            },
    )
}

/// The turns of intersection `j` after the first `n` of the given commands,
/// where none of them makes the turns anew: each command that changes the
/// crossings of the intersection gives the turns the types of its entries.
pub open spec fn replay_crossings(turns: Seq<Turn>, cmds: Seq<EditCmdView>, j: int, n: int) -> Seq<
    Turn,
>
    decreases n,
{
    if n <= 0 {
        turns
    } else {
        let before = replay_crossings(turns, cmds, j, n - 1);
        match cmds[n - 1] {
            EditCmdView::ChangeCrosswalks { i, new, .. } => if i.0 == j {
                retyped_by(before, new)
            } else {
                before
            },
            _ => before,
        }
    }
}

/// Whether the command at position `k` changes the crossings of intersection
/// `j`, and none of the commands after it, up to position `n`, changes them
/// again or may make the turns of the intersection anew.
pub open spec fn crossings_kept(cmds: Seq<EditCmdView>, roads: Seq<Road>, j: int, k: int, n: int) -> bool {
    match cmds[k] {
        EditCmdView::ChangeCrosswalks { i, .. } => i.0 == j && forall|m: int|
            k < m < n ==> !remakes_turns(#[trigger] cmds[m], roads, j) && !(cmds[m] matches EditCmdView::ChangeCrosswalks {
                i: at,
                ..
            } && at.0 == j),
        _ => false,
    }
}

/// The entries of a command that changes crossings.
pub open spec fn new_entries(cmd: EditCmdView) -> Set<Turn> {
    match cmd {
        EditCmdView::ChangeCrosswalks { new, .. } => new,
        _ => Set::empty(),
    }
}

impl StreetMap {
    /// What holds of the turns once the first `n` commands are applied to the
    /// map `old`:
    ///
    /// - the turns of every intersection whose turns none of the commands may
    ///   have made anew are what the commands make of its turns in `old`:
    ///   see [`replay_crossings`];
    /// - where a command changed the crossings of an intersection and they
    ///   were left alone since (see [`crossings_kept`]), every entry of the
    ///   command is a turn of the intersection: the turns that it names have
    ///   the types that it gives them.
    pub open spec fn crossings_replayed(&self, old: &StreetMap, cmds: Seq<EditCmdView>, n: int) -> bool {
        &&& forall|j: int|
            0 <= j < old.intersections.len() && turns_kept(cmds, old.roads@, j, n) ==> (
            #[trigger] self.intersections[j]).turns@ == replay_crossings(
                old.intersections[j].turns@,
                cmds,
                j,
                n,
            )
        &&& forall|j: int, k: int, e: Turn|
            0 <= j < old.intersections.len() && 0 <= k < n && crossings_kept(
                cmds,
                old.roads@,
                j,
                k,
                n,
            ) && #[trigger] new_entries(cmds[k]).contains(e) ==> #[trigger] self.intersections[j].turns@.contains(
                e,
            )
    }
}

/// An entry for a turn that is there is among the turns once they have the
/// types of the entries: see [`retyped_by`].
pub proof fn lemma_entry_is_turn(turns: Seq<Turn>, entries: Set<Turn>, e: Turn)
    requires
        plain(entries),
        entries.contains(e),
        has_turn(turns, e.id),
    ensures
        retyped_by(turns, entries).contains(e),
{
    let k = choose|k: int| 0 <= k < turns.len() && #[trigger] turns[k].id == e.id;
    assert(has_entry(entries, turns[k].id));
    assert(entry_for(entries, turns[k].id) == e);
    assert(retyped_by(turns, entries)[k] == e);
}

/// Entries that name no turn twice hold no two entries for one turn.
pub proof fn lemma_wf_is_plain(entries: crate::edits::EditCrosswalks)
    requires
        entries.wf(),
    ensures
        plain(entries@),
{
    entries.lemma_wf();
    assert forall|a: Turn, b: Turn|
        #![trigger entries@.contains(a), entries@.contains(b)]
        entries@.contains(a) && entries@.contains(b) && a.id == b.id implies a == b by {
        assert(entries.0@.contains(a));
        assert(entries.0@.contains(b));
        let x = choose|x: int| 0 <= x < entries.0@.len() && entries.0@[x] == a;
        let y = choose|y: int| 0 <= y < entries.0@.len() && entries.0@[y] == b;
        if x < y {
            assert(entries.0@[x].id != entries.0@[y].id);
        } else if y < x {
            assert(entries.0@[y].id != entries.0@[x].id);
        }
    }
}

/// Where no two turns have the same name and no two entries are for one
/// turn, giving the turns the types of the entries one after the other is
/// giving each turn its entry: see [`retyped`] and [`retyped_by`].
pub proof fn lemma_retyped_is_by(turns: Seq<Turn>, entries: Seq<Turn>)
    requires
        crate::turn::distinct_names(turns),
        plain(entries.to_set()),
    ensures
        retyped(turns, entries, entries.len() as int) == retyped_by(turns, entries.to_set()),
{
    let n = entries.len() as int;
    let a = retyped(turns, entries, n);
    let b = retyped_by(turns, entries.to_set());
    crate::edits::apply::lemma_retyped_ids(turns, entries, n);
    assert forall|x: int, y: int|
        0 <= x < turns.len() && 0 <= y < turns.len() && x != y implies (#[trigger] turns[x]).id != (
    #[trigger] turns[y]).id by {
        if x < y {
            assert(turns[x].id != turns[y].id);
        } else {
            assert(turns[y].id != turns[x].id);
        }
    }
    assert forall|k: int| 0 <= k < turns.len() implies a[k] == b[k] by {
        crate::edits::laws::lemma_retyped_by_name(turns, entries, n, k);
        crate::edits::laws::lemma_last_type(entries, turns[k].id, n);
        let id = turns[k].id;
        match crate::edits::laws::last_type(entries, id, n) {
            Some(ty) => {
                let w = choose|w: int|
                    0 <= w < n && entries[w].id == id && entries[w].turn_type == ty;
                assert(entries.to_set().contains(entries[w]));
                assert(has_entry(entries.to_set(), id));
                let e = entry_for(entries.to_set(), id);
                assert(e == entries[w]);
            },
            None => {
                if has_entry(entries.to_set(), id) {
                    let e = entry_for(entries.to_set(), id);
                    assert(entries.contains(e));
                    let w = choose|w: int| 0 <= w < entries.len() && entries[w] == e;
                    assert(entries[w].id != id);
                }
            },
        }
    }
    assert(a =~= b);
}

/// Entries that are the crossings of the turns give every turn the type
/// that it has.
pub proof fn lemma_retyped_by_own(turns: Seq<Turn>, entries: Set<Turn>)
    requires
        crate::turn::distinct_names(turns),
        forall|e: Turn| #[trigger] entries.contains(e) ==> turns.contains(e),
    ensures
        retyped_by(turns, entries) == turns,
{
    assert forall|k: int| 0 <= k < turns.len() implies retyped_by(turns, entries)[k]
        == turns[k] by {
        if has_entry(entries, turns[k].id) {
            let e = entry_for(entries, turns[k].id);
            assert(turns.contains(e));
            let w = choose|w: int| 0 <= w < turns.len() && turns[w] == e;
            if w < k {
                assert(turns[w].id != turns[k].id);
            } else if k < w {
                assert(turns[k].id != turns[w].id);
            }
        }
    }
    assert(retyped_by(turns, entries) =~= turns);
}

/// One more command that succeeded keeps the turns what the commands make
/// of them: see [`StreetMap::crossings_replayed`].
pub proof fn lemma_crossings_step(
    old: &StreetMap,
    before: &StreetMap,
    after: &StreetMap,
    e_before: &EditEffects,
    e_after: &EditEffects,
    cmds: Seq<EditCmdView>,
    n: int,
    cmd: EditCmd,
)
    requires
        0 <= n < cmds.len(),
        cmds[n] == cmd@,
        old.wf(),
        before.wf(),
        before.edited_from(old),
        before.has_target(cmd),
        before.crossings_replayed(old, cmds, n),
        cmd.outcome(e_before, before, e_after, after, Ok(())),
    ensures
        after.crossings_replayed(old, cmds, n + 1),
{
    assert forall|j: int, k: int, e: Turn|
        0 <= j < old.intersections.len() && 0 <= k < n + 1 && crossings_kept(
            cmds,
            old.roads@,
            j,
            k,
            n + 1,
        ) && #[trigger] new_entries(cmds[k]).contains(e) implies #[trigger] after.intersections[j].turns@.contains(
        e,
    ) by {
        lemma_touches_stays(old, before, cmds[n], j);
        assert(before.turns_ok(j));
        let turns = before.intersections[j].turns@;
        if k < n {
            assert(!remakes_turns(cmds[n], old.roads@, j));
            assert(crossings_kept(cmds, old.roads@, j, k, n));
            assert(turns.contains(e));
            match cmd {
                EditCmd::ChangeIntersection { i, new, old: was } => {
                    if i.0 == j && !before.already_applied(cmd) {
                        assert(after.control_follows(before, i, new@, was@));
                    }
                },
                _ => {},
            }
        } else {
            match cmd {
                EditCmd::ChangeCrosswalks { i, old: _, new } => {
                    lemma_wf_is_plain(new);
                    if before.already_applied(cmd) {
                        assert(before.intersections[j].crosswalks().contains(e));
                    } else {
                        lemma_retyped_is_by(turns, new.0@);
                        assert(new.0@.contains(e));
                        let w = choose|w: int| 0 <= w < new.0@.len() && new.0@[w] == e;
                        assert(!names_unknown(turns, new.0@));
                        assert(has_turn(turns, new.0@[w].id));
                        lemma_entry_is_turn(turns, new@, e);
                    }
                },
                _ => {},
            }
        }
    }
    assert forall|j: int|
        0 <= j < old.intersections.len() && turns_kept(cmds, old.roads@, j, n + 1) implies (
    #[trigger] after.intersections[j]).turns@ == replay_crossings(
        old.intersections[j].turns@,
        cmds,
        j,
        n + 1,
    ) by {
        assert(!remakes_turns(cmds[n], old.roads@, j));
        assert(turns_kept(cmds, old.roads@, j, n));
        let turns = before.intersections[j].turns@;
        assert(turns == replay_crossings(old.intersections[j].turns@, cmds, j, n));
        assert(before.turns_ok(j));
        lemma_touches_stays(old, before, cmds[n], j);
        match cmd {
            EditCmd::ChangeCrosswalks { i, old: _, new } => {
                if i.0 == j {
                    lemma_wf_is_plain(new);
                    if before.already_applied(cmd) {
                        assert forall|e: Turn| #[trigger] new@.contains(e) implies turns.contains(
                            e,
                        ) by {
                            assert(before.intersections[j].crosswalks().contains(e));
                        }
                        lemma_retyped_by_own(turns, new@);
                    } else {
                        lemma_retyped_is_by(turns, new.0@);
                    }
                }
            },
            EditCmd::ChangeIntersection { i, new, old: was } => {
                if i.0 == j && !before.already_applied(cmd) {
                    assert(after.control_follows(before, i, new@, was@));
                }
            },
            _ => {},
        }
    }
}

/// A map that came from another by edits has the targets that the other has.
pub proof fn lemma_targets_stay(before: &StreetMap, after: &StreetMap, cmds: Seq<EditCmd>)
    requires
        after.edited_from(before),
        before.has_targets(cmds),
    ensures
        after.has_targets(cmds),
{
    assert forall|k: int| 0 <= k < cmds.len() implies after.has_target(#[trigger] cmds[k]) by {
        assert(before.has_target(cmds[k]));
    }
}

/// A map that came by edits from a map that came by edits from a third came
/// by edits from the third.
pub proof fn lemma_edited_from_trans(a: &StreetMap, b: &StreetMap, c: &StreetMap)
    requires
        b.edited_from(a),
        c.edited_from(b),
    ensures
        c.edited_from(a),
{
    assert forall|q: int| 0 <= q < c.roads.len() implies (#[trigger] c.roads[q]).same_but_state(
        &a.roads[q],
    ) by {
        assert(b.roads[q].same_but_state(&a.roads[q]));
    }
    assert forall|j: int| 0 <= j < c.intersections.len() implies {
        &&& (#[trigger] c.intersections[j]).id == a.intersections[j].id
        &&& c.intersections[j].roads == a.intersections[j].roads
        &&& c.intersections[j].spec_is_border() == a.intersections[j].spec_is_border()
    } by {
        assert(b.intersections[j].id == a.intersections[j].id);
    }
    assert forall|k: int| 0 <= k < c.transit_routes.len() implies {
        &&& (#[trigger] c.transit_routes[k]).id == a.transit_routes[k].id
        &&& c.transit_routes[k].short_name == a.transit_routes[k].short_name
        &&& c.transit_routes[k].orig_spawn_times == a.transit_routes[k].orig_spawn_times
    } by {
        assert(b.transit_routes[k].id == a.transit_routes[k].id);
    }
}

/// Whether a road ends at an intersection does not change by edits.
pub proof fn lemma_touches_stays(before: &StreetMap, after: &StreetMap, cmd: EditCmdView, j: int)
    requires
        after.edited_from(before),
    ensures
        cmd_touches(cmd, after.roads@, j) == cmd_touches(cmd, before.roads@, j),
{
    match cmd {
        EditCmdView::ChangeRoad { r, .. } => {
            if r.0 < after.roads.len() {
                assert(after.roads[r.0 as int].same_but_state(&before.roads[r.0 as int]));
            }
        },
        _ => {},
    }
}

/// Whether the turn is among the names listed for its intersection.
pub open spec fn named_in(names: Seq<Vec<TurnID>>, t: TurnID) -> bool {
    t.parent.0 < names.len() && names[t.parent.0 as int]@.contains(t)
}

/// Which roads a command might change does not change by edits.
pub proof fn lemma_near_stays(before: &StreetMap, after: &StreetMap, cmd: EditCmdView, q: int)
    requires
        after.edited_from(before),
        0 <= q < before.roads.len(),
    ensures
        road_near(cmd, after.roads@, q) == road_near(cmd, before.roads@, q),
{
    match cmd {
        EditCmdView::ChangeRoad { r, .. } => {
            assert(after.roads[q].same_but_state(&before.roads[q]));
            if r.0 < after.roads.len() {
                assert(after.roads[r.0 as int].same_but_state(&before.roads[r.0 as int]));
            }
        },
        _ => {},
    }
}

/// One more command that succeeded keeps what holds during a replay: see
/// [`StreetMap::replay_inv`].
pub proof fn lemma_replay_step(
    old: &StreetMap,
    before: &StreetMap,
    after: &StreetMap,
    fresh: &EditEffects,
    e_before: &EditEffects,
    e_after: &EditEffects,
    cmds: Seq<EditCmdView>,
    n: int,
    cmd: EditCmd,
)
    requires
        0 <= n < cmds.len(),
        cmds[n] == cmd@,
        old.wf(),
        before.wf(),
        before.edited_from(old),
        before.has_target(cmd),
        before.road_states() == replay_roads(old.road_states(), cmds, n),
        e_before.turns_follow(fresh, old, before),
        before.replay_inv(old, e_before, cmds, n),
        forall|j: int|
            0 <= j < old.intersections.len() && untouched(cmds, old.roads@, j, n)
                ==> #[trigger] before.intersections[j] == old.intersections[j],
        cmd.outcome(e_before, before, e_after, after, Ok(())),
    ensures
        after.replay_inv(old, e_after, cmds, n + 1),
{
    let states = old.road_states();
    assert(after.roads.len() == old.roads.len());
    // Roads whose state was changed are recorded.
    assert forall|r: RoadID| #[trigger] road_remade(states, cmds, r, n + 1) implies e_after.road_recorded(
        old,
        after,
        r,
    ) by {
        let k = choose|k: int| 0 <= k < n + 1 && #[trigger] road_remade_at(states, cmds, k, r);
        assert(r.0 < old.roads.len());
        assert(old.road_ok(r.0 as int));
        let src_i = old.roads[r.0 as int].src_i;
        let dst_i = old.roads[r.0 as int].dst_i;
        assert(before.roads[r.0 as int].same_but_state(&old.roads[r.0 as int]));
        assert(after.intersection_ok(src_i.0 as int));
        assert(after.intersection_ok(dst_i.0 as int));
        assert(old.intersection_ok(src_i.0 as int));
        assert(old.intersection_ok(dst_i.0 as int));
        if road_remade(states, cmds, r, n) {
            assert(e_before.road_recorded(old, before, r));
            crate::edits::turns::lemma_remade_stays(e_before, e_after, old, before, after, src_i);
            crate::edits::turns::lemma_remade_stays(e_before, e_after, old, before, after, dst_i);
        } else {
            assert(k == n);
            assert(before.road_states()[r.0 as int] == before.roads[r.0 as int].edit_state());
            assert(!before.already_applied(cmd));
            assert(e_after.road_effects(e_before, before, after, r));
            assert(before.intersections[src_i.0 as int].roads
                == old.intersections[src_i.0 as int].roads);
            assert(before.intersections[dst_i.0 as int].roads
                == old.intersections[dst_i.0 as int].roads);
            assert(neighbours_of(before, r) == neighbours_of(old, r));
            assert(before.roads[r.0 as int].lanes.len() == old.roads[r.0 as int].lanes.len());
            crate::edits::turns::lemma_remade_since(
                fresh,
                e_before,
                e_after,
                old,
                before,
                after,
                src_i,
            );
            crate::edits::turns::lemma_remade_since(
                fresh,
                e_before,
                e_after,
                old,
                before,
                after,
                dst_i,
            );
        }
    }
    // The other roads have as many lanes as before.
    assert forall|r: int|
        0 <= r < old.roads.len() && !road_remade(
            states,
            cmds,
            RoadID(r as usize),
            n + 1,
        ) implies (#[trigger] after.roads[r]).lanes.len() == old.roads[r].lanes.len() by {
        let id = RoadID(r as usize);
        assert(!road_remade_at(states, cmds, n, id));
        if road_remade(states, cmds, id, n) {
            let k = choose|k: int| 0 <= k < n && #[trigger] road_remade_at(states, cmds, k, id);
            assert(road_remade_at(states, cmds, k, id));
        }
        assert(before.roads[r].lanes.len() == old.roads[r].lanes.len());
        assert(before.road_states()[r] == before.roads[r].edit_state());
        assert(after.road_states()[r] == after.roads[r].edit_state());
        assert(after.road_states()[r] == before.road_states()[r]);
        assert(crate::road::specs_of(after.roads[r].lanes@).len() == after.roads[r].lanes.len());
        assert(crate::road::specs_of(before.roads[r].lanes@).len() == before.roads[r].lanes.len());
    }
    // Roads far from every command are as they were.
    assert forall|q: int|
        0 <= q < old.roads.len() && road_far(cmds, old.roads@, q, n + 1) implies #[trigger] after.roads[q]
        == old.roads[q] by {
        assert(!road_near(cmds[n], old.roads@, q));
        lemma_near_stays(old, before, cmds[n], q);
        assert(road_far(cmds, old.roads@, q, n));
    }
    if no_roads(cmds, n + 1) {
        assert(!(cmds[n] is ChangeRoad));
        assert(no_roads(cmds, n));
    }
    // Intersections that keep their turns.
    assert forall|j: int|
        0 <= j < old.intersections.len() && turns_kept(cmds, old.roads@, j, n + 1) implies turn_ids(
        (#[trigger] after.intersections[j]).turns@,
    ) == turn_ids(old.intersections[j].turns@) && after.intersections[j].movements
        == old.intersections[j].movements by {
        assert(!remakes_turns(cmds[n], old.roads@, j));
        assert(turns_kept(cmds, old.roads@, j, n));
        lemma_touches_stays(old, before, cmds[n], j);
        lemma_kept_by_cmd(before, after, e_before, e_after, cmd, j);
    }
    if idle(cmds, old, n + 1) {
        assert(idle(cmds, old, n));
        assert(leads_here(cmds[n], old));
        match cmd {
            EditCmd::ChangeRouteSchedule { id, old: _, new } => {
                assert(before.schedules()[id.0 as int] == before.transit_routes[id.0 as int].spawn_times@);
                assert(old.schedules()[id.0 as int] == old.transit_routes[id.0 as int].spawn_times@);
                assert(after.schedules() =~= before.schedules());
            },
            _ => {
                assert(before.already_applied(cmd));
            },
        }
    }
    // No command so far was sure to fail.
    assert forall|k: int| 0 <= k < n + 1 implies !#[trigger] fails_at(cmds, old, k) by {
        if k == n && fails_at(cmds, old, n) {
            lemma_fails_is_err(old, before, after, e_before, e_after, cmds, n, cmd, Ok(()));
        }
    }
}

/// A command that does not make the turns of intersection `j` anew keeps
/// their names and the movements.
pub proof fn lemma_kept_by_cmd(
    before: &StreetMap,
    after: &StreetMap,
    e_before: &EditEffects,
    e_after: &EditEffects,
    cmd: EditCmd,
    j: int,
)
    requires
        before.wf(),
        before.has_target(cmd),
        0 <= j < before.intersections.len(),
        !remakes_turns(cmd@, before.roads@, j),
        cmd.outcome(e_before, before, e_after, after, Ok(())),
    ensures
        turn_ids(after.intersections[j].turns@) == turn_ids(before.intersections[j].turns@),
        after.intersections[j].movements == before.intersections[j].movements,
{
    if before.already_applied(cmd) || !cmd_touches(cmd@, before.roads@, j) {
    } else {
        match cmd {
            EditCmd::ChangeIntersection { i, new, old: was } => {
                assert(after.control_follows(before, i, new@, was@));
            },
            EditCmd::ChangeCrosswalks { i, old: _, new } => {
                crate::edits::apply::lemma_retyped_ids(
                    before.intersections[j].turns@,
                    new.0@,
                    new.0.len() as int,
                );
                lemma_same_ids(after.intersections[j].turns@, before.intersections[j].turns@);
            },
            _ => {},
        }
    }
}

/// A command that is sure to fail fails, with the error that belongs to it.
pub proof fn lemma_fails_is_err(
    old: &StreetMap,
    before: &StreetMap,
    after: &StreetMap,
    e_before: &EditEffects,
    e_after: &EditEffects,
    cmds: Seq<EditCmdView>,
    n: int,
    cmd: EditCmd,
    res: Result<(), ApplyError>,
)
    requires
        0 <= n < cmds.len(),
        cmds[n] == cmd@,
        before.has_target(cmd),
        before.intersections.len() == old.intersections.len(),
        forall|j: int|
            0 <= j < old.intersections.len() && untouched(cmds, old.roads@, j, n)
                ==> #[trigger] before.intersections[j] == old.intersections[j],
        cmd.outcome(e_before, before, e_after, after, res),
        fails_at(cmds, old, n),
    ensures
        match res {
            Ok(()) => false,
            Err(e) => failure(cmds[n], old, e),
        },
{
    match cmd {
        EditCmd::ChangeIntersection { i, new, old: was } => {
            assert(before.intersections[i.0 as int] == old.intersections[i.0 as int]);
            assert(!before.already_applied(cmd));
        },
        EditCmd::ChangeCrosswalks { i, old: _, new } => {
            assert(before.intersections[i.0 as int] == old.intersections[i.0 as int]);
            assert(!before.already_applied(cmd));
            let turns = old.intersections[i.0 as int].turns@;
            lemma_known_entries(turns, new.0@);
            assert(names_unknown(turns, new.0@));
            let w = choose|w: int| 0 <= w < new.0@.len() && !has_turn(turns, #[trigger] new.0@[w].id);
            assert(!has_turn(turns, new.0@[w].id));
            lemma_first_unknown(turns, new.0@, 0);
            let k = choose|k: int|
                0 <= k < new.0@.len() && !has_turn(turns, #[trigger] new.0@[k].id) && first_unknown(
                    turns,
                    new.0@,
                    0,
                ) == new.0@[k].id;
            assert(new.0@.to_set().contains(new.0@[k]));
            assert(res.is_err());
        },
        _ => {},
    }
}

/// What a transaction owes when a command fails during the replay: see
/// [`StreetMap::transaction`].
pub proof fn lemma_failed_transaction(
    old: &StreetMap,
    before: &StreetMap,
    after: &StreetMap,
    e_before: &EditEffects,
    e_after: &EditEffects,
    cmds: Seq<EditCmdView>,
    n: int,
    cmd: EditCmd,
    e: ApplyError,
)
    requires
        0 <= n < cmds.len(),
        cmds[n] == cmd@,
        old.wf(),
        before.wf(),
        before.edited_from(old),
        before.has_target(cmd),
        before.replay_inv(old, e_before, cmds, n),
        forall|j: int|
            0 <= j < old.intersections.len() && untouched(cmds, old.roads@, j, n)
                ==> #[trigger] before.intersections[j] == old.intersections[j],
        cmd.outcome(e_before, before, e_after, after, Err(e)),
    ensures
        !sure_upto(cmds, old, cmds.len() as int),
        !idle(cmds, old, cmds.len() as int),
        forall|k: int|
            0 <= k < cmds.len() && sure_upto(cmds, old, k) && #[trigger] fails_at(cmds, old, k)
                ==> failure(cmds[k], old, e),
        exists|k: int| 0 <= k < cmds.len() && #[trigger] blamed(cmds[k], old.roads@, e),
{
    lemma_replay_fails(old, before, after, e_before, e_after, cmds, n, cmd, e);
    assert(blamed(cmds[n], old.roads@, e));
    if idle(cmds, old, cmds.len() as int) {
        assert(idle(cmds, old, n + 1));
    }
    assert forall|k: int|
        0 <= k < cmds.len() && sure_upto(cmds, old, k) && #[trigger] fails_at(
            cmds,
            old,
            k,
        ) implies failure(cmds[k], old, e) by {
        if k == n {
            lemma_fails_is_err(old, before, after, e_before, e_after, cmds, n, cmd, Err(e));
        } else if k > n {
            assert(sure_at(cmds, old, n));
        }
    }
}

/// What holds of a command that failed during a replay: it was not sure to
/// succeed, and it can be the one that failed with this error.
pub proof fn lemma_replay_fails(
    old: &StreetMap,
    before: &StreetMap,
    after: &StreetMap,
    e_before: &EditEffects,
    e_after: &EditEffects,
    cmds: Seq<EditCmdView>,
    n: int,
    cmd: EditCmd,
    e: ApplyError,
)
    requires
        0 <= n < cmds.len(),
        cmds[n] == cmd@,
        old.wf(),
        before.wf(),
        before.edited_from(old),
        before.has_target(cmd),
        before.replay_inv(old, e_before, cmds, n),
        cmd.outcome(e_before, before, e_after, after, Err(e)),
    ensures
        !sure_at(cmds, old, n),
        !idle(cmds, old, n + 1),
        blamed(cmds[n], old.roads@, e),
{
    if idle(cmds, old, n + 1) {
        assert(idle(cmds, old, n));
        assert(leads_here(cmds[n], old));
        match cmd {
            EditCmd::ChangeRouteSchedule { .. } => {},
            _ => {
                assert(before.already_applied(cmd));
            },
        }
    }
    match cmd {
        EditCmd::ChangeRoad { r, old: _, new } => {
            assert(before.roads[r.0 as int].same_but_state(&old.roads[r.0 as int]));
            let src_i = old.roads[r.0 as int].src_i;
            let dst_i = old.roads[r.0 as int].dst_i;
            assert(IntersectionID(src_i.0 as int as usize) == src_i);
            assert(IntersectionID(dst_i.0 as int as usize) == dst_i);
            assert(cmd_touches(cmds[n], old.roads@, src_i.0 as int));
            assert(cmd_touches(cmds[n], old.roads@, dst_i.0 as int));
            assert(e == ApplyError::NoIntersectionShape(src_i) || e
                == ApplyError::NoIntersectionShape(dst_i));
            if e == ApplyError::NoIntersectionShape(src_i) {
                assert(blamed(cmds[n], old.roads@, e));
            } else {
                assert(blamed(cmds[n], old.roads@, e));
            }
        },
        EditCmd::ChangeIntersection { i, new, old: was } => {
            if sure_at(cmds, old, n) {
                assert(before.intersections[i.0 as int].movements
                    == old.intersections[i.0 as int].movements);
                assert(!before.already_applied(cmd));
            }
            assert(e == ApplyError::SignalDoesNotFit(i) && new@ is TrafficSignal);
            assert(blamed(cmds[n], old.roads@, e));
        },
        EditCmd::ChangeCrosswalks { i, old: _, new } => {
            let turns = before.intersections[i.0 as int].turns@;
            assert(names_unknown(turns, new.0@));
            lemma_first_unknown(turns, new.0@, 0);
            let k = choose|k: int|
                0 <= k < new.0@.len() && !has_turn(turns, #[trigger] new.0@[k].id) && first_unknown(
                    turns,
                    new.0@,
                    0,
                ) == new.0@[k].id;
            assert(new.0@.to_set().contains(new.0@[k]));
            if sure_at(cmds, old, n) {
                assert(turn_ids(turns) == turn_ids(old.intersections[i.0 as int].turns@));
                assert(turn_ids(old.intersections[i.0 as int].turns@).contains(new.0@[k].id));
                assert(turn_ids(turns).contains(new.0@[k].id));
            }
            let x = new.0@[k];
            assert(new@.contains(x));
            assert(e == ApplyError::UnknownTurn(x.id));
            assert(cmds[n] matches EditCmdView::ChangeCrosswalks { new: named, .. }
                && named.contains(x));
            assert(blamed(cmds[n], old.roads@, e));
        },
        EditCmd::ChangeRouteSchedule { .. } => {
            assert(false);
        },
    }
}

impl StreetMap {
    /// The names of the turns of every intersection.
    pub fn turn_names(&self) -> (names: Vec<Vec<TurnID>>)
        ensures
            forall|t: TurnID| #[trigger] named_in(names@, t) == self.has_turn_named(t),
    {
        let mut names: Vec<Vec<TurnID>> = Vec::new();
        let mut j: usize = 0;
        while j < self.intersections.len()
            invariant
                j <= self.intersections.len(),
                names.len() == j,
                forall|a: int, t: TurnID|
                    0 <= a < j ==> (#[trigger] names[a]@.contains(t) <==> has_turn(
                        self.intersections[a].turns@,
                        t,
                    )),
            decreases self.intersections.len() - j,
        {
            let turns = &self.intersections[j].turns;
            let mut here: Vec<TurnID> = Vec::new();
            let mut k: usize = 0;
            while k < turns.len()
                invariant
                    k <= turns.len(),
                    forall|t: TurnID| #[trigger]
                        here@.contains(t) <==> has_turn(turns@.take(k as int), t),
                decreases turns.len() - k,
            {
                let ghost before = here@;
                here.push(turns[k].id);
                proof {
                    let id = turns@[k as int].id;
                    crate::id_set::lemma_push_contains(before, id);
                    crate::edits::turns::lemma_turn_ids_take(turns@, k as int);
                    assert forall|t: TurnID| #[trigger] here@.contains(t) <==> has_turn(
                        turns@.take(k + 1),
                        t,
                    ) by {
                        assert(here@.contains(t) <==> (before.contains(t) || t == id));
                        assert(turn_ids(turns@.take(k + 1)).contains(t) == has_turn(
                            turns@.take(k + 1),
                            t,
                        ));
                        assert(turn_ids(turns@.take(k as int)).contains(t) == has_turn(
                            turns@.take(k as int),
                            t,
                        ));
                    }
                }
                k = k + 1;
            }
            proof {
                assert(turns@.take(k as int) =~= turns@);
            }
            names.push(here);
            j = j + 1;
        }
        names
    }

    /// Forgets the turns recorded as deleted that are not among the given
    /// names.
    pub fn retain_deleted_turns(effects: &mut EditEffects, names: &Vec<Vec<TurnID>>)
        ensures
            final(effects).deleted_turns@ == old(effects).deleted_turns@.filter(
                |t: TurnID| named_in(names@, t),
            ),
            final(effects).same_but_turns(old(effects)),
            final(effects).added_turns == old(effects).added_turns,
    {
        let all = effects.deleted_turns.elements();
        let mut kept: IdSet<TurnID> = IdSet::new();
        let mut k: usize = 0;
        while k < all.len()
            invariant
                k <= all.len(),
                all@.to_set() == effects.deleted_turns@,
                *effects == *old(effects),
                kept@ == all@.take(k as int).to_set().filter(|t: TurnID| named_in(names@, t)),
            decreases all.len() - k,
        {
            let t = all[k];
            if t.parent.0 < names.len() && crate::vecs::vec_contains(&names[t.parent.0], t) {
                kept.insert(t);
            }
            proof {
                crate::id_set::lemma_push_contains(all@.take(k as int), all@[k as int]);
                assert(all@.take(k + 1) =~= all@.take(k as int).push(all@[k as int]));
                assert(kept@ =~= all@.take(k + 1).to_set().filter(
                    |t: TurnID| named_in(names@, t),
                ));
            }
            k = k + 1;
        }
        proof {
            assert(all@.take(k as int) =~= all@);
        }
        effects.deleted_turns = kept;
    }

    /// Whether the map has a turn of this name.
    pub fn has_turn_id(&self, t: TurnID) -> (b: bool)
        ensures
            b == self.has_turn_named(t),
    {
        if t.parent.0 >= self.intersections.len() {
            return false;
        }
        find_turn(&self.intersections[t.parent.0].turns, t).is_some()
    }

    /// Forgets the turns recorded as added that the map does not have.
    pub fn retain_added_turns(&self, effects: &mut EditEffects)
        ensures
            final(effects).added_turns@ == old(effects).added_turns@.filter(
                |t: TurnID| self.has_turn_named(t),
            ),
            final(effects).same_but_added_turns(old(effects)),
    {
        let all = effects.added_turns.elements();
        let mut kept: IdSet<TurnID> = IdSet::new();
        let mut k: usize = 0;
        while k < all.len()
            invariant
                k <= all.len(),
                all@.to_set() == effects.added_turns@,
                *effects == *old(effects),
                kept@ == all@.take(k as int).to_set().filter(|t: TurnID| self.has_turn_named(t)),
            decreases all.len() - k,
        {
            if self.has_turn_id(all[k]) {
                kept.insert(all[k]);
            }
            proof {
                crate::id_set::lemma_push_contains(all@.take(k as int), all@[k as int]);
                assert(all@.take(k + 1) =~= all@.take(k as int).push(all@[k as int]));
                assert(kept@ =~= all@.take(k + 1).to_set().filter(
                    |t: TurnID| self.has_turn_named(t),
                ));
            }
            k = k + 1;
        }
        proof {
            assert(all@.take(k as int) =~= all@);
        }
        effects.added_turns = kept;
    }
}

/// A map whose roads, intersections and applied commands are those of a sound
/// map is sound.
pub proof fn lemma_wf_frame(before: &StreetMap, after: &StreetMap)
    requires
        before.wf(),
        after.roads == before.roads,
        after.intersections == before.intersections,
        after.transit_routes.len() == before.transit_routes.len(),
        before.has_targets(after.edits.commands@),
    ensures
        after.wf(),
{
    assert forall|q: int| 0 <= q < after.roads.len() implies #[trigger] after.road_ok(q) by {
        assert(before.road_ok(q));
    }
    assert forall|j: int| 0 <= j < after.intersections.len() implies #[trigger]
        after.intersection_ok(j) by {
        assert(before.intersection_ok(j));
    }
    assert forall|j: int| 0 <= j < after.intersections.len() implies #[trigger] after.turns_ok(
        j,
    ) by {
        assert(before.turns_ok(j));
    }
    assert forall|c: int| 0 <= c < after.edits.commands@.len() implies after.has_target(
        #[trigger] after.edits.commands@[c],
    ) by {
        assert(before.has_target(after.edits.commands@[c]));
    }
}

impl StreetMap {
    /// What a transaction leaves of the map as it was, whatever the commands
    /// are: the map is sound and came from the old one by edits.
    pub open spec fn follows(&self, old: &StreetMap) -> bool {
        self.wf() && self.edited_from(old)
    }

    /// What [`StreetMap::apply_edits`] leaves behind: `self` is the map after
    /// the transaction, `old` the map before it, and `res` what the
    /// transaction gave back.
    ///
    /// In every case the map is sound and came from the old one by edits. If
    /// `new_edits` are the edits that the old map has, the map is unchanged
    /// and the effects are empty. The transaction succeeds if every one of
    /// the replayed commands is sure to succeed (see [`sure_at`]). It fails
    /// if it comes to a command that is sure to fail (see [`fails_at`]), with
    /// the error of that command (see [`failure`]). It succeeds also if every
    /// one of the replayed commands leads to the state that its target has
    /// already (see [`idle`]); then nothing changes but the edits, the count
    /// and the mark. Whenever it fails, one of
    /// the replayed commands can have failed so (see [`blamed`]), or a
    /// transit stop is left without a lane (see [`StreetMap::orphaned`]). If
    /// it succeeded and the edits are not those that the old map has:
    ///
    /// - the map has `new_edits` as its edits, with what follows from their
    ///   commands for the map as it is now;
    /// - the transaction is counted and the map is marked for a new search
    ///   for paths;
    /// - the state of every road and the schedule of every transit route is
    ///   what the replayed commands make of the old one;
    /// - an intersection that none of the replayed commands touches is as it
    ///   was, and lanes are recorded as deleted only of roads that a replayed
    ///   command changes: what the commands of the common start changed is
    ///   not touched again;
    /// - the map has every turn recorded as added, and every turn that it has
    ///   and the old map had not is recorded so; the old map had every turn
    ///   recorded as deleted, and every turn that it had and the map has not
    ///   is recorded so: a turn that was made and taken away again in the
    ///   course of the transaction is recorded as neither, and a turn that
    ///   was taken away and made again may be recorded as both;
    /// - the intersection of every added or deleted turn is recorded as
    ///   changed;
    /// - a building is as it was unless its lane is recorded as modified, a
    ///   parking lot is recorded as changed if and only if one of its lanes
    ///   is recorded as modified, and is as it was otherwise;
    /// - every transit stop keeps its name, the place where its passengers
    ///   wait and its kind of vehicle, and a stop of no changed road is as it
    ///   was;
    /// - the transit stops are as they were unless `enforce_valid`; then the
    ///   vehicles of every stop of a changed road stop on the nearest lane
    ///   that they may use, of a changed road that has the stop;
    /// - every intersection is in the kind of state that the replayed
    ///   commands lead it to, closed or open with stop signs or a signal; one
    ///   that a command gave a signal and that was not set up anew since has
    ///   the timing of that command; and every intersection that a command
    ///   met in another state is recorded as changed: see
    ///   [`StreetMap::replay_states`];
    /// - the turns of an intersection whose turns no replayed command may
    ///   have made anew have the types that the replayed commands give
    ///   them, each turn the type of its entry; and the turns that the last
    ///   change to the crossings of an intersection names have the types of
    ///   that command, if the turns were not made anew since: see
    ///   [`StreetMap::crossings_replayed`];
    /// - a road that none of the replayed commands might change is as it was;
    ///   every road whose state one of them changed is recorded, with the
    ///   roads that meet it, its old lanes, and the turns at its ends (see
    ///   [`EditEffects::road_recorded`]); every deleted lane is recorded as
    ///   modified;
    /// - the zones are sound zones made anew (see [`StreetMap::zones_ok`]) if
    ///   a road is recorded as changed or `merge_zones` changed, and are as
    ///   they were otherwise.
    pub open spec fn transaction(
        &self,
        old: &StreetMap,
        new_edits: &MapEdits,
        enforce_valid: bool,
        res: Result<EditEffects, ApplyError>,
    ) -> bool {
        let applied = replayed(cmds_view(old.edits.commands@), cmds_view(new_edits.commands@));
        &&& self.follows(old)
        &&& new_edits@ == old.edits@ ==> *self == *old && match res {
            Ok(effects) => effects.is_empty(),
            Err(_) => false,
        }
        &&& sure_upto(applied, old, applied.len() as int) || idle(
            applied,
            old,
            applied.len() as int,
        ) ==> res.is_ok()
        &&& forall|n: int|
            new_edits@ != old.edits@ && 0 <= n < applied.len() && sure_upto(applied, old, n)
                && #[trigger] fails_at(applied, old, n) ==> match res {
                Ok(_) => false,
                Err(e) => failure(applied[n], old, e),
            }
        &&& match res {
            Ok(effects) => new_edits@ != old.edits@ ==> {
                &&& self.edits.commands == new_edits.commands
                &&& self.edits.edits_name == new_edits.edits_name
                &&& self.edits.merge_zones == new_edits.merge_zones
                &&& self.edits.proposal_description == new_edits.proposal_description
                &&& self.edits.proposal_link == new_edits.proposal_link
                &&& self.edits.derived() == self.derived_of(cmds_view(new_edits.commands@))
                &&& self.edits_generation == old.edits_generation + 1
                &&& self.pathfinder_dirty
                &&& self.road_states() == replay_roads(
                    old.road_states(),
                    applied,
                    applied.len() as int,
                )
                &&& self.schedules() == replay_schedules(
                    old.schedules(),
                    applied,
                    applied.len() as int,
                )
                &&& forall|j: int|
                    0 <= j < old.intersections.len() && untouched(
                        applied,
                        old.roads@,
                        j,
                        applied.len() as int,
                    ) ==> #[trigger] self.intersections[j] == old.intersections[j]
                &&& forall|l: crate::ids::LaneID| #[trigger]
                    effects.deleted_lanes@.contains(l) ==> road_changed_by(
                        applied,
                        l.road,
                        applied.len() as int,
                    )
                &&& forall|t: TurnID| #[trigger]
                    effects.added_turns@.contains(t) ==> self.has_turn_named(t)
                &&& forall|t: TurnID| #[trigger]
                    effects.deleted_turns@.contains(t) ==> old.has_turn_named(t)
                &&& forall|t: TurnID| #[trigger]
                    self.has_turn_named(t) && !old.has_turn_named(t)
                        ==> effects.added_turns@.contains(t)
                &&& forall|t: TurnID| #[trigger]
                    old.has_turn_named(t) && !self.has_turn_named(t)
                        ==> effects.deleted_turns@.contains(t)
                &&& forall|t: TurnID|
                    effects.added_turns@.contains(t) || effects.deleted_turns@.contains(t)
                        ==> effects.changed_intersections@.contains(#[trigger] t.parent)
                &&& forall|b: int|
                    0 <= b < old.buildings.len() && !effects.modified_lanes@.contains(
                        old.buildings[b].sidewalk_pos.lane,
                    ) ==> #[trigger] self.buildings[b] == old.buildings[b]
                &&& forall|p: int|
                    0 <= p < old.parking_lots.len() ==> (effects.changed_parking_lots@.contains(
                        ParkingLotID(p as usize),
                    ) <==> (effects.modified_lanes@.contains(
                        #[trigger] old.parking_lots[p].driving_pos.lane,
                    ) || effects.modified_lanes@.contains(old.parking_lots[p].sidewalk_pos.lane)))
                &&& forall|p: int|
                    0 <= p < old.parking_lots.len() && !effects.changed_parking_lots@.contains(
                        ParkingLotID(p as usize),
                    ) ==> #[trigger] self.parking_lots[p] == old.parking_lots[p]
                &&& !enforce_valid ==> self.transit_stops == old.transit_stops
                &&& forall|s: int|
                    0 <= s < old.transit_stops.len() ==> (#[trigger] self.transit_stops[s]).keeps_place(
                        &old.transit_stops[s],
                    )
                &&& forall|s: int|
                    0 <= s < old.transit_stops.len() && self.off_changed_roads(
                        effects.changed_roads@,
                        s,
                    ) ==> #[trigger] self.transit_stops[s] == old.transit_stops[s]
                &&& if effects.changed_roads@ != Set::<RoadID>::empty() || new_edits.merge_zones
                    != old.edits.merge_zones {
                    self.zones_ok(self.zones@)
                } else {
                    self.zones == old.zones
                }
                &&& forall|q: int|
                    0 <= q < old.roads.len() && road_far(
                        applied,
                        old.roads@,
                        q,
                        applied.len() as int,
                    ) ==> #[trigger] self.roads[q] == old.roads[q]
                &&& forall|r: RoadID| #[trigger]
                    road_remade(old.road_states(), applied, r, applied.len() as int)
                        ==> effects.road_recorded(old, self, r)
                &&& effects.deleted_lanes@.subset_of(effects.modified_lanes@)
                &&& self.replay_states(old, &effects, applied, applied.len() as int)
                &&& self.crossings_replayed(old, applied, applied.len() as int)
                &&& idle(applied, old, applied.len() as int) ==> self.roads == old.roads
                    && self.intersections == old.intersections && self.schedules()
                    == old.schedules() && self.transit_stops == old.transit_stops
                    && effects.is_empty()
                &&& enforce_valid ==> forall|r: RoadID, k: int|
                    effects.changed_roads@.contains(r) && self.has_road(r)
                        && #[trigger] self.has_stop_of(r, k) ==> self.stop_settled(
                        self,
                        effects.changed_roads@,
                        self.roads[r.0 as int].transit_stops[k],
                    )
            },
            Err(e) => (exists|k: int| 0 <= k < applied.len() && #[trigger] blamed(
                applied[k],
                old.roads@,
                e,
            )) || (enforce_valid && self.orphaned(e)),
        }
    }

    /// Whether stop number `s` is a stop of none of the given roads.
    pub open spec fn off_changed_roads(&self, roads: Set<RoadID>, s: int) -> bool {
        forall|r: RoadID|
            #[trigger] roads.contains(r) && self.has_road(r)
                ==> !self.roads[r.0 as int].transit_stops@.contains(TransitStopID(s as usize))
    }

    /// Whether the vehicles of stop `s` stop, in the map `new`, where one of
    /// the given roads that has the stop wants them: see
    /// [`StreetMap::stop_is_served`].
    pub open spec fn stop_settled(&self, new: &StreetMap, roads: Set<RoadID>, s: TransitStopID) -> bool {
        exists|q: RoadID|
            roads.contains(q) && self.has_road(q) && self.roads[q.0 as int].transit_stops@.contains(
                s,
            ) && #[trigger] self.stop_is_served(new, q, s)
    }

    /// Whether `e` is the error of a transit stop of the map that has no lane
    /// on its road for its vehicles.
    pub open spec fn orphaned(&self, e: ApplyError) -> bool {
        exists|r: RoadID, k: int|
            self.has_road(r) && #[trigger] self.has_stop_of(r, k) && e == ApplyError::OrphanedStop(
                self.roads[r.0 as int].transit_stops[k],
            ) && !self.stop_has_lane(r, self.roads[r.0 as int].transit_stops[k])
    }

    /// Replaces the edits of the map by `new_edits`.
    ///
    /// If `new_edits` are the edits that the map has, nothing happens at all.
    /// Otherwise the commands that both logs have in common at their start
    /// stay as they are. The other commands of the map are taken back, the
    /// last one first, and the other commands of `new_edits` are applied in
    /// their order: see [`replayed`] and [`EditCmd::apply`]. Then:
    ///
    /// - Every building and parking lot that is connected to a lane that was
    ///   deleted or made anew is connected again: see
    ///   [`StreetMap::fix_building_driveways`]. Such a parking lot is recorded
    ///   as changed.
    /// - If `enforce_valid`, the transit stops of every changed road are moved
    ///   to the lane for buses nearest to them: see
    ///   [`StreetMap::fix_transit_stops`].
    /// - What follows from the commands of `new_edits` is derived anew, the
    ///   map takes `new_edits` as its edits, counts the transaction, and is
    ///   marked for a new search for paths.
    /// - The zones are made anew if a road changed or `merge_zones` did.
    /// - Of the turns recorded as added, those that the map has are kept; of
    ///   the turns recorded as deleted, those that the map had before the
    ///   transaction. The intersection of every added or deleted turn is
    ///   recorded as changed.
    ///
    /// An error ends the transaction where it stands. The map is sound then,
    /// but neither in its old state nor in the new one.
    pub fn apply_edits<G: Geometry>(
        &mut self,
        new_edits: MapEdits,
        enforce_valid: bool,
        geom: &G,
    ) -> (res:
        Result<EditEffects, ApplyError>)
        requires
            old(self).wf(),
            old(self).has_targets(new_edits.commands@),
            old(self).edits_generation < usize::MAX,
        ensures
            final(self).transaction(old(self), &new_edits, enforce_valid, res),
    {
        let mut target_edits = new_edits;
        let mut effects = EditEffects::new();
        let ghost fresh = effects;
        if self.edits.same_as(&target_edits) {
            proof {
                assert(self.edited_from(old(self)));
            }
            return Ok(effects);
        }
        let had = self.turn_names();
        let ghost current = cmds_view(old(self).edits.commands@);
        let ghost target = cmds_view(target_edits.commands@);
        let ghost applied = replayed(current, target);
        let start_at_idx = common_prefix(&self.edits.commands, &target_edits.commands);
        let total = self.edits.commands.len();
        proof {
            crate::edits::turns::lemma_kept_turns_follow(old(self), self, &fresh, &effects);
            assert(self.edited_from(old(self)));
            assert(self.road_states() =~= replay_roads(old(self).road_states(), applied, 0));
            assert(self.schedules() =~= replay_schedules(old(self).schedules(), applied, 0));
            assert(self.replay_inv(old(self), &effects, applied, 0));
            assert(self.replay_states(old(self), &effects, applied, 0));
            assert(self.crossings_replayed(old(self), applied, 0));
        }
        // Take back what the map has beyond the common start.
        let mut n: usize = total;
        while n > start_at_idx
            invariant
                start_at_idx <= n <= total,
                target_edits == new_edits,
                new_edits@ != old(self).edits@,
                total == current.len(),
                current == cmds_view(old(self).edits.commands@),
                target == cmds_view(target_edits.commands@),
                applied == replayed(current, target),
                start_at_idx == common_prefix_len(current, target),
                self.wf(),
                self.edited_from(old(self)),
                old(self).has_targets(old(self).edits.commands@),
                self.edits.commands@ == old(self).edits.commands@.take(n as int),
                self.edits.merge_zones == old(self).edits.merge_zones,
                self.buildings == old(self).buildings,
                self.parking_lots == old(self).parking_lots,
                self.transit_stops == old(self).transit_stops,
                self.zones == old(self).zones,
                self.edits_generation == old(self).edits_generation,
                self.city == old(self).city,
                effects.changed_parking_lots@ == Set::<ParkingLotID>::empty(),
                old(self).wf(),
                self.replay_inv(old(self), &effects, applied, total - n),
                self.replay_states(old(self), &effects, applied, total - n),
                self.crossings_replayed(old(self), applied, total - n),
                applied.len() == total - start_at_idx + target.len() - start_at_idx,
                fresh.is_empty(),
                effects.turns_follow(&fresh, old(self), self),
                forall|t: TurnID| #[trigger] named_in(had@, t) == old(self).has_turn_named(t),
                forall|l: crate::ids::LaneID| #[trigger]
                    effects.deleted_lanes@.contains(l) ==> road_changed_by(
                        applied,
                        l.road,
                        total - n,
                    ),
                self.road_states() == replay_roads(old(self).road_states(), applied, total - n),
                self.schedules() == replay_schedules(old(self).schedules(), applied, total - n),
                forall|j: int|
                    0 <= j < old(self).intersections.len() && untouched(
                        applied,
                        old(self).roads@,
                        j,
                        total - n,
                    ) ==> #[trigger] self.intersections[j] == old(self).intersections[j],
            decreases n,
        {
            let ghost before = *self;
            let cmd = self.edits.commands.pop().unwrap().undo();
            proof {
                assert(cmd@ == current[n - 1].undo());
                assert(applied[total - n] == cmd@);
                assert(before.has_target(old(self).edits.commands@[n - 1])) by {
                    assert(before.edits.commands@[n - 1] == old(self).edits.commands@[n - 1]);
                }
                assert(self.edits.commands@ =~= old(self).edits.commands@.take(n - 1));
                assert(before.has_targets(self.edits.commands@)) by {
                    assert forall|c: int| 0 <= c < self.edits.commands@.len() implies before.has_target(
                        #[trigger] self.edits.commands@[c],
                    ) by {
                        assert(before.has_target(before.edits.commands@[c]));
                    }
                }
                lemma_wf_frame(&before, self);
                assert(self.edited_from(&before));
                crate::edits::turns::lemma_kept_turns_follow(&before, self, &effects, &effects);
                crate::edits::turns::lemma_turns_follow_trans(
                    &fresh,
                    &effects,
                    &effects,
                    old(self),
                    &before,
                    self,
                );
            }
            let ghost popped = *self;
            let ghost e_popped = effects;
            let ghost deleted_before = effects.deleted_lanes@;
            proof {
                lemma_edited_from_trans(old(self), &before, &popped);
                assert(popped.road_states() =~= before.road_states());
                assert(popped.replay_inv(old(self), &e_popped, applied, total - n));
                assert(popped.state_kinds() =~= before.state_kinds());
                assert(popped.replay_states(old(self), &e_popped, applied, total - n));
                assert(popped.crossings_replayed(old(self), applied, total - n));
            }
            match cmd.apply(&mut effects, self, geom) {
                Ok(()) => {},
                Err(e) => {
                    proof {
                        lemma_edited_from_trans(old(self), &popped, self);
                        lemma_failed_transaction(
                            old(self),
                            &popped,
                            self,
                            &e_popped,
                            &effects,
                            applied,
                            total - n,
                            cmd,
                            e,
                        );
                    }
                    return Err(e);
                },
            }
            proof {
                lemma_replay_step(
                    old(self),
                    &popped,
                    self,
                    &fresh,
                    &e_popped,
                    &effects,
                    applied,
                    total - n,
                    cmd,
                );
                lemma_replay_states_step(
                    old(self),
                    &popped,
                    self,
                    &e_popped,
                    &effects,
                    applied,
                    total - n,
                    cmd,
                );
                lemma_crossings_step(
                    old(self),
                    &popped,
                    self,
                    &e_popped,
                    &effects,
                    applied,
                    total - n,
                    cmd,
                );
                lemma_edited_from_trans(old(self), &popped, self);
                crate::edits::turns::lemma_turns_follow_trans(
                    &fresh,
                    &e_popped,
                    &effects,
                    old(self),
                    &popped,
                    self,
                );
                assert(popped.road_states() =~= before.road_states());
                assert(popped.schedules() =~= before.schedules());
                assert forall|j: int|
                    0 <= j < old(self).intersections.len() && untouched(
                        applied,
                        old(self).roads@,
                        j,
                        total - n + 1,
                    ) implies #[trigger] self.intersections[j] == old(self).intersections[j] by {
                    assert(!cmd_touches(applied[total - n], old(self).roads@, j));
                    lemma_touches_stays(old(self), &popped, cmd@, j);
                    assert(untouched(applied, old(self).roads@, j, total - n));
                }
                assert forall|l: crate::ids::LaneID| #[trigger]
                    effects.deleted_lanes@.contains(l) implies road_changed_by(
                    applied,
                    l.road,
                    total - n + 1,
                ) by {
                    if deleted_before.contains(l) {
                        let w = choose|w: int|
                            0 <= w < total - n && changes_road(#[trigger] applied[w], l.road);
                        assert(changes_road(applied[w], l.road));
                    } else {
                        assert(changes_road(applied[total - n], l.road));
                    }
                }
            }
            n = n - 1;
        }
        // Apply what the new edits have beyond the common start.
        let count = target_edits.commands.len();
        let ghost undone_len = total - start_at_idx;
        let mut k: usize = start_at_idx;
        proof {
            lemma_targets_stay(old(self), self, target_edits.commands@);
        }
        while k < count
            invariant
                start_at_idx <= k <= count,
                start_at_idx <= total,
                target_edits == new_edits,
                new_edits@ != old(self).edits@,
                count == target_edits.commands.len(),
                undone_len == total - start_at_idx,
                total == current.len(),
                current == cmds_view(old(self).edits.commands@),
                target == cmds_view(target_edits.commands@),
                applied == replayed(current, target),
                start_at_idx == common_prefix_len(current, target),
                self.wf(),
                self.edited_from(old(self)),
                old(self).has_targets(target_edits.commands@),
                self.edits.merge_zones == old(self).edits.merge_zones,
                self.buildings == old(self).buildings,
                self.parking_lots == old(self).parking_lots,
                self.transit_stops == old(self).transit_stops,
                self.zones == old(self).zones,
                self.edits_generation == old(self).edits_generation,
                effects.changed_parking_lots@ == Set::<ParkingLotID>::empty(),
                old(self).wf(),
                self.replay_inv(old(self), &effects, applied, undone_len + k - start_at_idx),
                self.replay_states(old(self), &effects, applied, undone_len + k - start_at_idx),
                self.crossings_replayed(old(self), applied, undone_len + k - start_at_idx),
                applied.len() == undone_len + count - start_at_idx,
                fresh.is_empty(),
                effects.turns_follow(&fresh, old(self), self),
                forall|t: TurnID| #[trigger] named_in(had@, t) == old(self).has_turn_named(t),
                forall|l: crate::ids::LaneID| #[trigger]
                    effects.deleted_lanes@.contains(l) ==> road_changed_by(
                        applied,
                        l.road,
                        undone_len + k - start_at_idx,
                    ),
                self.road_states() == replay_roads(
                    old(self).road_states(),
                    applied,
                    undone_len + k - start_at_idx,
                ),
                self.schedules() == replay_schedules(
                    old(self).schedules(),
                    applied,
                    undone_len + k - start_at_idx,
                ),
                forall|j: int|
                    0 <= j < old(self).intersections.len() && untouched(
                        applied,
                        old(self).roads@,
                        j,
                        undone_len + k - start_at_idx,
                    ) ==> #[trigger] self.intersections[j] == old(self).intersections[j],
            decreases count - k,
        {
            let ghost before = *self;
            proof {
                lemma_targets_stay(old(self), self, target_edits.commands@);
                assert(self.has_target(target_edits.commands@[k as int]));
                assert(undone(current, start_at_idx as int).len() == undone_len);
                assert(target.skip(start_at_idx as int)[k - start_at_idx] == target[k as int]);
                assert(applied[undone_len + k - start_at_idx] == target_edits.commands@[k as int]@);
            }
            let ghost deleted_before = effects.deleted_lanes@;
            let ghost e_before = effects;
            match target_edits.commands[k].apply(&mut effects, self, geom) {
                Ok(()) => {},
                Err(e) => {
                    proof {
                        lemma_edited_from_trans(old(self), &before, self);
                        lemma_failed_transaction(
                            old(self),
                            &before,
                            self,
                            &e_before,
                            &effects,
                            applied,
                            undone_len + k - start_at_idx,
                            target_edits.commands@[k as int],
                            e,
                        );
                    }
                    return Err(e);
                },
            }
            proof {
                lemma_replay_step(
                    old(self),
                    &before,
                    self,
                    &fresh,
                    &e_before,
                    &effects,
                    applied,
                    undone_len + k - start_at_idx,
                    target_edits.commands@[k as int],
                );
                lemma_replay_states_step(
                    old(self),
                    &before,
                    self,
                    &e_before,
                    &effects,
                    applied,
                    undone_len + k - start_at_idx,
                    target_edits.commands@[k as int],
                );
                lemma_crossings_step(
                    old(self),
                    &before,
                    self,
                    &e_before,
                    &effects,
                    applied,
                    undone_len + k - start_at_idx,
                    target_edits.commands@[k as int],
                );
                lemma_edited_from_trans(old(self), &before, self);
                crate::edits::turns::lemma_turns_follow_trans(
                    &fresh,
                    &e_before,
                    &effects,
                    old(self),
                    &before,
                    self,
                );
                assert forall|j: int|
                    0 <= j < old(self).intersections.len() && untouched(
                        applied,
                        old(self).roads@,
                        j,
                        undone_len + k - start_at_idx + 1,
                    ) implies #[trigger] self.intersections[j] == old(self).intersections[j] by {
                    assert(!cmd_touches(
                        applied[undone_len + k - start_at_idx],
                        old(self).roads@,
                        j,
                    ));
                    lemma_touches_stays(old(self), &before, target_edits.commands@[k as int]@, j);
                    assert(untouched(
                        applied,
                        old(self).roads@,
                        j,
                        undone_len + k - start_at_idx,
                    ));
                }
                assert forall|l: crate::ids::LaneID| #[trigger]
                    effects.deleted_lanes@.contains(l) implies road_changed_by(
                    applied,
                    l.road,
                    undone_len + k - start_at_idx + 1,
                ) by {
                    if deleted_before.contains(l) {
                        let w = choose|w: int|
                            0 <= w < undone_len + k - start_at_idx && changes_road(
                                #[trigger] applied[w],
                                l.road,
                            );
                        assert(changes_road(applied[w], l.road));
                    } else {
                        assert(changes_road(applied[undone_len + k - start_at_idx], l.road));
                    }
                }
            }
            k = k + 1;
        }
        let ghost replayed_map = *self;
        let ghost lanes_modified = effects.modified_lanes@;
        let ghost lanes_deleted = effects.deleted_lanes@;
        let ghost roads_changed_so_far = effects.changed_roads@;
        let ghost e_replayed = effects;
        proof {
            assert(replayed_map.replay_inv(old(self), &e_replayed, applied, applied.len() as int));
            assert(replayed_map.replay_states(old(self), &e_replayed, applied, applied.len() as int));
            assert(replayed_map.crossings_replayed(old(self), applied, applied.len() as int));
        }
        // Connect the buildings again.
        let mut recalc_buildings: Vec<BuildingID> = Vec::new();
        let mut b: usize = 0;
        while b < self.buildings.len()
            invariant
                b <= self.buildings.len(),
                *self == replayed_map,
                effects.modified_lanes@ == lanes_modified,
                effects.deleted_lanes@ == lanes_deleted,
                effects.changed_parking_lots@ == Set::<ParkingLotID>::empty(),
                forall|t: TurnID| #[trigger] named_in(had@, t) == old(self).has_turn_named(t),
                effects.changed_roads@ == roads_changed_so_far,
                effects == e_replayed,
                lanes_modified == Set::<crate::ids::LaneID>::empty() ==> recalc_buildings@.len()
                    == 0,
                forall|x: BuildingID| #[trigger]
                    recalc_buildings@.contains(x) ==> x.0 < self.buildings.len()
                        && lanes_modified.contains(self.buildings[x.0 as int].sidewalk_pos.lane),
            decreases self.buildings.len() - b,
        {
            if effects.modified_lanes.contains(self.buildings[b].sidewalk_pos.lane) {
                proof {
                    crate::id_set::lemma_push_contains(recalc_buildings@, BuildingID(b));
                }
                recalc_buildings.push(BuildingID(b));
            }
            b = b + 1;
        }
        self.fix_building_driveways(&recalc_buildings, &mut effects, geom);
        let ghost with_buildings = *self;
        let ghost roads_changed_now = effects.changed_roads@;
        // Connect the parking lots again.
        let mut recalc_parking_lots: Vec<ParkingLotID> = Vec::new();
        let mut p: usize = 0;
        while p < self.parking_lots.len()
            invariant
                p <= self.parking_lots.len(),
                *self == with_buildings,
                effects.modified_lanes@ == lanes_modified,
                effects.deleted_lanes@ == lanes_deleted,
                effects.changed_roads@ == roads_changed_now,
                forall|t: TurnID| #[trigger] named_in(had@, t) == old(self).has_turn_named(t),
                effects.added_turns == e_replayed.added_turns,
                effects.deleted_turns == e_replayed.deleted_turns,
                effects.changed_intersections == e_replayed.changed_intersections,
                forall|x: ParkingLotID| #[trigger]
                    recalc_parking_lots@.contains(x) ==> effects.changed_parking_lots@.contains(x),
                forall|x: ParkingLotID| #[trigger]
                    effects.changed_parking_lots@.contains(x) <==> (x.0 < p && (
                    lanes_modified.contains(self.parking_lots[x.0 as int].driving_pos.lane)
                        || lanes_modified.contains(self.parking_lots[x.0 as int].sidewalk_pos.lane))),
            decreases self.parking_lots.len() - p,
        {
            if effects.modified_lanes.contains(self.parking_lots[p].driving_pos.lane)
                || effects.modified_lanes.contains(self.parking_lots[p].sidewalk_pos.lane) {
                proof {
                    crate::id_set::lemma_push_contains(recalc_parking_lots@, ParkingLotID(p));
                }
                recalc_parking_lots.push(ParkingLotID(p));
                effects.changed_parking_lots.insert(ParkingLotID(p));
            }
            p = p + 1;
        }
        self.fix_parking_lot_driveways(&recalc_parking_lots, geom);
        let ghost with_lots = *self;
        let ghost lots_changed = effects.changed_parking_lots@;
        // Move the transit stops.
        if enforce_valid {
            let changed = effects.changed_roads.elements();
            proof {
                if no_roads(applied, applied.len() as int) || idle(
                    applied,
                    old(self),
                    applied.len() as int,
                ) {
                    assert(roads_changed_so_far == Set::<RoadID>::empty());
                    assert(lanes_modified == Set::<crate::ids::LaneID>::empty());
                    assert(recalc_buildings@.len() == 0);
                    assert(effects.changed_roads@ == Set::<RoadID>::empty());
                    if changed@.len() > 0 {
                        assert(changed@.contains(changed@[0]));
                        assert(changed@.to_set().contains(changed@[0]));
                    }
                }
                assert(changed@.take(0).to_set() =~= Set::<RoadID>::empty());
            }
            let mut c: usize = 0;
            while c < changed.len()
                invariant
                    c <= changed.len(),
                    old(self).wf(),
                    enforce_valid,
                    replayed_map.replay_inv(old(self), &e_replayed, applied, applied.len() as int),
                    changed@.to_set() == effects.changed_roads@,
                    forall|s: int|
                        0 <= s < self.transit_stops.len() ==> (#[trigger] self.transit_stops[s]).keeps_place(
                            &with_lots.transit_stops[s],
                        ),
                    forall|s: int|
                        0 <= s < self.transit_stops.len() && (forall|a: int|
                            0 <= a < c && with_lots.has_road(#[trigger] changed@[a])
                                ==> !with_lots.roads[changed@[a].0 as int].transit_stops@.contains(
                                TransitStopID(s as usize),
                            )) ==> #[trigger] self.transit_stops[s] == with_lots.transit_stops[s],
                    forall|a: int, k: int|
                        0 <= a < c && with_lots.has_road(changed@[a])
                            && #[trigger] with_lots.has_stop_of(changed@[a], k)
                            ==> with_lots.stop_settled(
                            self,
                            changed@.take(c as int).to_set(),
                            with_lots.roads[changed@[a].0 as int].transit_stops[k],
                        ),
                    applied == replayed(
                        cmds_view(old(self).edits.commands@),
                        cmds_view(new_edits.commands@),
                    ),
                    forall|t: TurnID| #[trigger] named_in(had@, t) == old(self).has_turn_named(t),
                    no_roads(applied, applied.len() as int) || idle(
                        applied,
                        old(self),
                        applied.len() as int,
                    ) ==> changed@.len() == 0,
                    new_edits@ != old(self).edits@,
                    self.same_but_transit_stops(&with_lots),
                    changed@.len() == 0 ==> self.transit_stops == with_lots.transit_stops,
                    with_lots.city == replayed_map.city,
                    with_lots.buildings.len() == replayed_map.buildings.len(),
                    with_lots.parking_lots.len() == replayed_map.parking_lots.len(),
                    with_lots.transit_stops.len() == replayed_map.transit_stops.len(),
                    effects.modified_lanes@ == lanes_modified,
                    effects.changed_parking_lots@ == lots_changed,
                    replayed_map.follows(old(self)),
                    with_lots.roads == replayed_map.roads,
                    with_lots.intersections == replayed_map.intersections,
                    with_lots.transit_routes == replayed_map.transit_routes,
                    with_lots.edits == replayed_map.edits,
                decreases changed.len() - c,
            {
                let ghost at_call = *self;
                if changed[c].0 < self.roads.len() {
                    match self.fix_transit_stops(changed[c], geom) {
                        Ok(()) => {},
                        Err(e) => {
                            proof {
                                lemma_wf_frame(&replayed_map, self);
                                lemma_surroundings_keep_edited(old(self), &replayed_map, self);
                                lemma_orphaned(&at_call, self, changed@[c as int], e);
                                if sure_upto(applied, old(self), applied.len() as int) {
                                    assert forall|k: int| 0 <= k < applied.len() implies !((
                                    #[trigger] applied[k]) is ChangeRoad) by {
                                        assert(sure_at(applied, old(self), k));
                                    }
                                }
                            }
                            return Err(e);
                        },
                    }
                }
                proof {
                    lemma_stops_settle(&with_lots, &at_call, self, changed@, c as int);
                }
                c = c + 1;
            }
            proof {
                assert forall|s: int|
                    0 <= s < self.transit_stops.len() && with_lots.off_changed_roads(
                        effects.changed_roads@,
                        s,
                    ) implies #[trigger] self.transit_stops[s] == with_lots.transit_stops[s] by {
                    assert forall|a: int|
                        0 <= a < changed.len() && with_lots.has_road(
                            #[trigger] changed@[a],
                        ) implies !with_lots.roads[changed@[a].0 as int].transit_stops@.contains(
                        TransitStopID(s as usize),
                    ) by {
                        assert(changed@.contains(changed@[a]));
                        assert(effects.changed_roads@.contains(changed@[a]));
                    }
                }
                assert(changed@.take(changed.len() as int) =~= changed@);
                assert forall|r: RoadID, k: int|
                    effects.changed_roads@.contains(r) && with_lots.has_road(r)
                        && #[trigger] with_lots.has_stop_of(r, k) implies with_lots.stop_settled(
                    self,
                    effects.changed_roads@,
                    with_lots.roads[r.0 as int].transit_stops[k],
                ) by {
                    assert(changed@.contains(r));
                    let a = choose|a: int| 0 <= a < changed@.len() && changed@[a] == r;
                    assert(with_lots.has_stop_of(changed@[a], k));
                }
            }
        }
        let ghost moved = *self;
        let ghost e_moved = effects;
        let merge_zones_changed = self.edits.merge_zones != target_edits.merge_zones;
        proof {
            lemma_wf_frame(&replayed_map, self);
            lemma_surroundings_keep_edited(old(self), &replayed_map, self);
            lemma_targets_stay(old(self), self, target_edits.commands@);
        }
        target_edits.update_derived(self);
        let roads_changed = !effects.changed_roads.is_empty();
        let ghost settled = *self;
        self.edits = target_edits;
        self.edits_generation = self.edits_generation + 1;
        self.pathfinder_dirty = true;
        proof {
            lemma_wf_frame(&settled, self);
            lemma_surroundings_keep_edited(old(self), &settled, self);
        }
        // The zones follow the restrictions of the roads.
        if roads_changed || merge_zones_changed {
            self.zones = Zone::make_all(self);
        }
        proof {
            lemma_wf_frame(&settled, self);
            lemma_surroundings_keep_edited(old(self), &settled, self);
            assert(self.road_states() =~= replayed_map.road_states());
            assert(self.schedules() =~= replayed_map.schedules());
            assert(self.road_baselines() =~= settled.road_baselines());
            assert(self.schedule_baselines() =~= settled.schedule_baselines());
            assert(self.intersection_states() =~= settled.intersection_states());
            assert(self.crosswalk_states() =~= settled.crosswalk_states());
            assert(self.road_states() =~= settled.road_states());
            assert(self.schedules() =~= settled.schedules());
        }
        proof {
            crate::edits::turns::lemma_kept_turns_follow(&replayed_map, self, &e_replayed,
                &effects);
            crate::edits::turns::lemma_turns_follow_trans(
                &fresh,
                &e_replayed,
                &effects,
                old(self),
                &replayed_map,
                self,
            );
        }
        let ghost e_settled = effects;
        self.retain_added_turns(&mut effects);
        Self::retain_deleted_turns(&mut effects, &had);
        effects.add_parents();
        proof {
            assert forall|t: TurnID| #[trigger]
                self.has_turn_named(t) && !old(self).has_turn_named(
                    t,
                ) implies effects.added_turns@.contains(t) by {
                assert(e_settled.added_turns@.contains(t));
            }
            assert forall|t: TurnID| #[trigger]
                old(self).has_turn_named(t) && !self.has_turn_named(
                    t,
                ) implies effects.deleted_turns@.contains(t) by {
                assert(e_settled.deleted_turns@.contains(t));
                assert(named_in(had@, t));
            }
            assert forall|t: TurnID| #[trigger]
                effects.deleted_turns@.contains(t) implies old(self).has_turn_named(t) by {
                assert(named_in(had@, t));
            }
            assert forall|t: TurnID|
                effects.added_turns@.contains(t)
                    || effects.deleted_turns@.contains(t) implies effects.changed_intersections@.contains(
                #[trigger] t.parent,
            ) by {
                assert(EditEffects::parents(
                    effects.deleted_turns@.union(effects.added_turns@),
                ).contains(t.parent));
            }
            assert forall|q: int|
                0 <= q < old(self).roads.len() && road_far(
                    applied,
                    old(self).roads@,
                    q,
                    applied.len() as int,
                ) implies #[trigger] self.roads[q] == old(self).roads[q] by {
                assert(replayed_map.roads[q] == old(self).roads[q]);
            }
            assert forall|r: RoadID| #[trigger]
                road_remade(
                    old(self).road_states(),
                    applied,
                    r,
                    applied.len() as int,
                ) implies effects.road_recorded(old(self), self, r) by {
                let k = choose|k: int|
                    0 <= k < applied.len() && #[trigger] road_remade_at(
                        old(self).road_states(),
                        applied,
                        k,
                        r,
                    );
                assert(e_replayed.road_recorded(old(self), &replayed_map, r));
                lemma_recorded_at_end(
                    old(self),
                    &replayed_map,
                    self,
                    &e_replayed,
                    &effects,
                    had@,
                    r,
                );
            }
            assert(self.replay_states(old(self), &effects, applied, applied.len() as int)) by {
                assert(self.state_kinds() =~= replayed_map.state_kinds());
                assert forall|k: int|
                    0 <= k < applied.len() && #[trigger] meets_other(
                        applied,
                        old(self),
                        k,
                    ) implies effects.changed_intersections@.contains(
                    intersection_of(applied[k]),
                ) by {
                    assert(e_replayed.changed_intersections@.contains(intersection_of(applied[k])));
                }
            }
            assert(with_lots.transit_stops == old(self).transit_stops);
            assert(self.transit_stops == moved.transit_stops);
            assert forall|s: int| 0 <= s < old(self).transit_stops.len() implies (
            #[trigger] self.transit_stops[s]).keeps_place(&old(self).transit_stops[s]) by {
                assert(moved.transit_stops[s].keeps_place(&with_lots.transit_stops[s]));
            }
            assert forall|s: int|
                0 <= s < old(self).transit_stops.len() && self.off_changed_roads(
                    effects.changed_roads@,
                    s,
                ) implies #[trigger] self.transit_stops[s] == old(self).transit_stops[s] by {
                assert(e_moved.changed_roads@ == effects.changed_roads@);
                assert(with_lots.roads == self.roads);
                assert(with_lots.off_changed_roads(e_moved.changed_roads@, s));
            }
            assert(self.crossings_replayed(old(self), applied, applied.len() as int)) by {
                assert(self.intersections == replayed_map.intersections);
            }
            if idle(applied, old(self), applied.len() as int) {
                assert(e_replayed.is_empty());
                assert(with_lots.transit_stops == old(self).transit_stops);
                assert(effects.changed_parking_lots@ =~= Set::<ParkingLotID>::empty());
                assert(effects.added_turns@ =~= Set::<TurnID>::empty());
                assert(effects.deleted_turns@ =~= Set::<TurnID>::empty());
                assert(EditEffects::parents(
                    e_settled.deleted_turns@.union(e_settled.added_turns@),
                ) =~= Set::<IntersectionID>::empty());
                assert(effects.changed_intersections@ =~= Set::<IntersectionID>::empty());
            }
            if enforce_valid {
                assert forall|r: RoadID, k: int|
                    effects.changed_roads@.contains(r) && self.has_road(r)
                        && #[trigger] self.has_stop_of(r, k) implies self.stop_settled(
                    self,
                    effects.changed_roads@,
                    self.roads[r.0 as int].transit_stops[k],
                ) by {
                    let s = self.roads[r.0 as int].transit_stops[k];
                    assert(with_lots.has_stop_of(r, k));
                    assert(with_lots.stop_settled(&moved, e_moved.changed_roads@, s));
                    lemma_settled_alike(&with_lots, self, &moved, self, effects.changed_roads@, s);
                }
            }
        }
        Ok(effects)
    }

    /// Replaces the edits of the map by `new_edits`, and moves the transit
    /// stops of changed roads to a lane that their vehicles may use. It is an
    /// error if a stop is left without such a lane. See
    /// [`StreetMap::apply_edits`].
    pub fn must_apply_edits<G: Geometry>(&mut self, new_edits: MapEdits, geom: &G) -> (res: Result<
        EditEffects,
        ApplyError,
    >)
        requires
            old(self).wf(),
            old(self).has_targets(new_edits.commands@),
            old(self).edits_generation < usize::MAX,
        ensures
            final(self).transaction(old(self), &new_edits, true, res),
    {
        self.apply_edits(new_edits, true, geom)
    }

    /// Replaces the edits of the map by `new_edits`, which may be edits made
    /// for a trial: the transit stops stay where they are. See
    /// [`StreetMap::apply_edits`].
    pub fn try_apply_edits<G: Geometry>(&mut self, new_edits: MapEdits, geom: &G) -> (res: Result<
        (),
        ApplyError,
    >)
        requires
            old(self).wf(),
            old(self).has_targets(new_edits.commands@),
            old(self).edits_generation < usize::MAX,
        ensures
            match res {
                Ok(()) => exists|effects: EditEffects|
                    final(self).transaction(old(self), &new_edits, false, Ok(effects)),
                Err(e) => final(self).transaction(old(self), &new_edits, false, Err(e)),
            },
    {
        match self.apply_edits(new_edits, false, geom) {
            Ok(effects) => {
                proof {
                    assert(self.transaction(old(self), &new_edits, false, Ok(effects)));
                }
                Ok(())
            },
            Err(e) => Err(e),
        }
    }
}

/// A stop that had no lane when its road was gone through has none
/// afterwards.
pub proof fn lemma_orphaned(before: &StreetMap, after: &StreetMap, r: RoadID, e: ApplyError)
    requires
        before.has_road(r),
        after.same_but_transit_stops(before),
        forall|k: int|
            0 <= k < before.transit_stops.len() ==> (#[trigger] after.transit_stops[k]).keeps_place(
                &before.transit_stops[k],
            ),
        exists|k: int| #[trigger]
            before.has_stop_of(r, k) && e == ApplyError::OrphanedStop(
                before.roads[r.0 as int].transit_stops[k],
            ) && !before.stop_has_lane(r, before.roads[r.0 as int].transit_stops[k]),
    ensures
        after.orphaned(e),
{
    let k = choose|k: int| #[trigger]
        before.has_stop_of(r, k) && e == ApplyError::OrphanedStop(
            before.roads[r.0 as int].transit_stops[k],
        ) && !before.stop_has_lane(r, before.roads[r.0 as int].transit_stops[k]);
    let s = before.roads[r.0 as int].transit_stops[k];
    assert(after.has_stop_of(r, k));
    if after.stop_has_lane(r, s) {
        let j = choose|j: int| #[trigger]
            after.roads[r.0 as int].candidate(
                after.transit_stops[s.0 as int].sidewalk_pos.lane,
                after.stop_mode(s),
                j,
            );
        assert(before.roads[r.0 as int].candidate(
            before.transit_stops[s.0 as int].sidewalk_pos.lane,
            before.stop_mode(s),
            j,
        ));
    }
}

/// Once the stops of one more of the roads are moved, the stops of all the
/// roads gone through so far are settled: see
/// [`StreetMap::stop_settled`].
pub proof fn lemma_stops_settle(
    origin: &StreetMap,
    before: &StreetMap,
    after: &StreetMap,
    changed: Seq<RoadID>,
    c: int,
)
    requires
        0 <= c < changed.len(),
        before.same_but_transit_stops(origin),
        after.same_but_transit_stops(before),
        forall|s: int|
            0 <= s < before.transit_stops.len() ==> (#[trigger] before.transit_stops[s]).keeps_place(
                &origin.transit_stops[s],
            ),
        forall|a: int, k: int|
            0 <= a < c && origin.has_road(changed[a]) && #[trigger] origin.has_stop_of(changed[a], k)
                ==> origin.stop_settled(
                before,
                changed.take(c).to_set(),
                origin.roads[changed[a].0 as int].transit_stops[k],
            ),
        !before.has_road(changed[c]) ==> *after == *before,
        before.has_road(changed[c]) ==> {
            &&& forall|k: int|
                0 <= k < before.transit_stops.len()
                    && !before.roads[changed[c].0 as int].transit_stops@.contains(
                    TransitStopID(k as usize),
                ) ==> after.transit_stops[k] == before.transit_stops[k]
            &&& forall|k: int| #[trigger]
                before.has_stop_of(changed[c], k) ==> before.stop_is_served(
                    after,
                    changed[c],
                    before.roads[changed[c].0 as int].transit_stops[k],
                )
        },
    ensures
        forall|a: int, k: int|
            0 <= a < c + 1 && origin.has_road(changed[a]) && #[trigger] origin.has_stop_of(
                changed[a],
                k,
            ) ==> origin.stop_settled(
                after,
                changed.take(c + 1).to_set(),
                origin.roads[changed[a].0 as int].transit_stops[k],
            ),
{
    let now = changed[c];
    assert(changed.take(c + 1) =~= changed.take(c).push(now));
    crate::id_set::lemma_push_contains(changed.take(c), now);
    assert forall|a: int, k: int|
        0 <= a < c + 1 && origin.has_road(changed[a]) && #[trigger] origin.has_stop_of(
            changed[a],
            k,
        ) implies origin.stop_settled(
        after,
        changed.take(c + 1).to_set(),
        origin.roads[changed[a].0 as int].transit_stops[k],
    ) by {
        let s = origin.roads[changed[a].0 as int].transit_stops[k];
        let roads = changed.take(c + 1).to_set();
        assert(roads.contains(now));
        if before.has_road(now) && before.roads[now.0 as int].transit_stops@.contains(s) {
            let w = choose|w: int|
                0 <= w < before.roads[now.0 as int].transit_stops@.len()
                    && before.roads[now.0 as int].transit_stops@[w] == s;
            assert(before.has_stop_of(now, w));
            assert(before.stop_is_served(after, now, s));
            assert(origin.stop_is_served(after, now, s)) by {
                lemma_served_alike(before, origin, after, now, s);
            }
        } else {
            assert(a < c);
            let q = choose|q: RoadID|
                changed.take(c).to_set().contains(q) && origin.has_road(q)
                    && origin.roads[q.0 as int].transit_stops@.contains(s)
                    && #[trigger] origin.stop_is_served(before, q, s);
            assert(roads.contains(q));
            assert(TransitStopID(s.0 as int as usize) == s);
            assert(after.transit_stops[s.0 as int] == before.transit_stops[s.0 as int]);
            assert(origin.stop_is_served(after, q, s));
        }
    }
}

/// Whether a stop is settled depends on the roads, on where the passengers
/// wait and on where the vehicles stop.
pub proof fn lemma_settled_alike(
    a: &StreetMap,
    b: &StreetMap,
    new_a: &StreetMap,
    new_b: &StreetMap,
    roads: Set<RoadID>,
    s: TransitStopID,
)
    requires
        a.roads == b.roads,
        a.transit_stops[s.0 as int].sidewalk_pos == b.transit_stops[s.0 as int].sidewalk_pos,
        a.transit_stops[s.0 as int].is_train_stop == b.transit_stops[s.0 as int].is_train_stop,
        new_a.transit_stops == new_b.transit_stops,
        a.stop_settled(new_a, roads, s),
    ensures
        b.stop_settled(new_b, roads, s),
{
    let q = choose|q: RoadID|
        roads.contains(q) && a.has_road(q) && a.roads[q.0 as int].transit_stops@.contains(s)
            && #[trigger] a.stop_is_served(new_a, q, s);
    lemma_served_alike(a, b, new_a, q, s);
    assert(b.stop_is_served(new_b, q, s));
}

/// A road that is recorded after the replay is recorded at the end of the
/// transaction: see [`EditEffects::road_recorded`].
pub proof fn lemma_recorded_at_end(
    old: &StreetMap,
    replayed: &StreetMap,
    now: &StreetMap,
    e_replayed: &EditEffects,
    effects: &EditEffects,
    had: Seq<Vec<TurnID>>,
    r: RoadID,
)
    requires
        old.wf(),
        now.wf(),
        old.has_road(r),
        now.intersections == replayed.intersections,
        now.intersections.len() == old.intersections.len(),
        e_replayed.road_recorded(old, replayed, r),
        e_replayed.changed_roads@.subset_of(effects.changed_roads@),
        e_replayed.deleted_lanes@.subset_of(effects.deleted_lanes@),
        e_replayed.changed_intersections@.subset_of(effects.changed_intersections@),
        forall|t: TurnID| #[trigger] named_in(had, t) == old.has_turn_named(t),
        effects.added_turns@ == e_replayed.added_turns@.filter(|t: TurnID| now.has_turn_named(t)),
        effects.deleted_turns@ == e_replayed.deleted_turns@.filter(|t: TurnID| named_in(had, t)),
    ensures
        effects.road_recorded(old, now, r),
{
    assert(old.road_ok(r.0 as int));
    let src_i = old.roads[r.0 as int].src_i;
    let dst_i = old.roads[r.0 as int].dst_i;
    lemma_remade_at_end(old, replayed, now, e_replayed, effects, had, src_i);
    lemma_remade_at_end(old, replayed, now, e_replayed, effects, had, dst_i);
}

/// Turns that were made anew in the replay are recorded so at the end of the
/// transaction: see [`EditEffects::turns_remade`].
pub proof fn lemma_remade_at_end(
    old: &StreetMap,
    replayed: &StreetMap,
    now: &StreetMap,
    e_replayed: &EditEffects,
    effects: &EditEffects,
    had: Seq<Vec<TurnID>>,
    i: IntersectionID,
)
    requires
        old.wf(),
        now.wf(),
        old.has_intersection(i),
        now.intersections == replayed.intersections,
        now.intersections.len() == old.intersections.len(),
        e_replayed.turns_remade(old, replayed, i),
        forall|t: TurnID| #[trigger] named_in(had, t) == old.has_turn_named(t),
        effects.added_turns@ == e_replayed.added_turns@.filter(|t: TurnID| now.has_turn_named(t)),
        effects.deleted_turns@ == e_replayed.deleted_turns@.filter(|t: TurnID| named_in(had, t)),
    ensures
        effects.turns_remade(old, now, i),
{
    let then = old.intersections[i.0 as int].turns@;
    let after = now.intersections[i.0 as int].turns@;
    assert(old.intersection_ok(i.0 as int));
    assert(now.intersection_ok(i.0 as int));
    assert forall|t: TurnID| turn_ids(then).contains(t) implies effects.deleted_turns@.contains(
        t,
    ) by {
        let k = choose|k: int| 0 <= k < then.len() && #[trigger] then[k].id == t;
        assert(old.intersections[i.0 as int].turns[k].id.parent == i);
        assert(old.has_turn_named(t));
        assert(named_in(had, t));
        assert(e_replayed.deleted_turns@.contains(t));
    }
    assert forall|t: TurnID| turn_ids(after).contains(t) implies effects.added_turns@.contains(
        t,
    ) by {
        let k = choose|k: int| 0 <= k < after.len() && #[trigger] after[k].id == t;
        assert(now.intersections[i.0 as int].turns[k].id.parent == i);
        assert(now.has_turn_named(t));
        assert(e_replayed.added_turns@.contains(t));
    }
}

/// Whether a stop is served depends on the roads and on where the passengers
/// wait, which moving the stops leaves alone.
pub proof fn lemma_served_alike(
    a: &StreetMap,
    b: &StreetMap,
    new: &StreetMap,
    r: RoadID,
    s: TransitStopID,
)
    requires
        a.roads == b.roads,
        a.transit_stops[s.0 as int].sidewalk_pos == b.transit_stops[s.0 as int].sidewalk_pos,
        a.transit_stops[s.0 as int].is_train_stop == b.transit_stops[s.0 as int].is_train_stop,
        a.stop_is_served(new, r, s),
    ensures
        b.stop_is_served(new, r, s),
{
    let j = choose|j: int| #[trigger]
        a.roads[r.0 as int].candidate(
            a.transit_stops[s.0 as int].sidewalk_pos.lane,
            a.stop_mode(s),
            j,
        );
    assert(b.roads[r.0 as int].candidate(
        b.transit_stops[s.0 as int].sidewalk_pos.lane,
        b.stop_mode(s),
        j,
    ));
}

/// A map that differs from one that came from another by edits only in what
/// stands beside the roads came from that other by edits too.
pub proof fn lemma_surroundings_keep_edited(
    origin: &StreetMap,
    before: &StreetMap,
    after: &StreetMap,
)
    requires
        before.edited_from(origin),
        after.city == before.city,
        after.roads == before.roads,
        after.intersections == before.intersections,
        after.transit_routes == before.transit_routes,
        after.buildings.len() == before.buildings.len(),
        after.parking_lots.len() == before.parking_lots.len(),
        after.transit_stops.len() == before.transit_stops.len(),
    ensures
        after.edited_from(origin),
{
}

impl EditEffects {
    /// The intersections of the given turns.
    pub open spec fn parents(turns: Set<TurnID>) -> Set<IntersectionID> {
        Set::new(|i: IntersectionID| exists|t: TurnID| turns.contains(t) && #[trigger] t.parent
            == i)
    }

    /// Records as changed the intersection of every turn that is recorded as
    /// added or deleted.
    pub fn add_parents(&mut self)
        ensures
            final(self).changed_intersections@ == old(self).changed_intersections@.union(
                Self::parents(old(self).deleted_turns@.union(old(self).added_turns@)),
            ),
            final(self).changed_roads == old(self).changed_roads,
            final(self).deleted_lanes == old(self).deleted_lanes,
            final(self).added_turns == old(self).added_turns,
            final(self).deleted_turns == old(self).deleted_turns,
            final(self).changed_parking_lots == old(self).changed_parking_lots,
            final(self).modified_lanes == old(self).modified_lanes,
    {
        let mut all = self.deleted_turns.elements();
        let mut added = self.added_turns.elements();
        let ghost deleted = all@;
        let ghost fresh = added@;
        all.append(&mut added);
        proof {
            assert forall|t: TurnID| all@.contains(t) <==> (deleted.contains(t) || fresh.contains(
                t,
            )) by {
                if all@.contains(t) {
                    let k = choose|k: int| 0 <= k < all@.len() && all@[k] == t;
                    if k < deleted.len() {
                        assert(deleted[k] == t);
                    } else {
                        assert(fresh[k - deleted.len()] == t);
                    }
                }
                if deleted.contains(t) {
                    let k = choose|k: int| 0 <= k < deleted.len() && deleted[k] == t;
                    assert(all@[k] == t);
                }
                if fresh.contains(t) {
                    let k = choose|k: int| 0 <= k < fresh.len() && fresh[k] == t;
                    assert(all@[k + deleted.len()] == t);
                }
            }
            assert(all@.to_set() =~= old(self).deleted_turns@.union(old(self).added_turns@));
            assert(Self::parents(all@.take(0).to_set()) =~= Set::<IntersectionID>::empty());
            assert(self.changed_intersections@ =~= old(self).changed_intersections@.union(
                Self::parents(all@.take(0).to_set()),
            ));
        }
        let mut k: usize = 0;
        while k < all.len()
            invariant
                k <= all.len(),
                self.changed_intersections@ == old(self).changed_intersections@.union(
                    Self::parents(all@.take(k as int).to_set()),
                ),
                self.changed_roads == old(self).changed_roads,
                self.deleted_lanes == old(self).deleted_lanes,
                self.added_turns == old(self).added_turns,
                self.deleted_turns == old(self).deleted_turns,
                self.changed_parking_lots == old(self).changed_parking_lots,
                self.modified_lanes == old(self).modified_lanes,
            decreases all.len() - k,
        {
            self.changed_intersections.insert(all[k].parent);
            proof {
                crate::id_set::lemma_push_contains(all@.take(k as int), all@[k as int]);
                assert(all@.take(k + 1) =~= all@.take(k as int).push(all@[k as int]));
                let a = all@.take(k as int).to_set();
                let b = all@.take(k + 1).to_set();
                assert forall|i: IntersectionID|
                    Self::parents(b).contains(i) <==> (Self::parents(a).contains(i) || i
                        == all@[k as int].parent) by {
                    if Self::parents(b).contains(i) {
                        let t = choose|t: TurnID| b.contains(t) && #[trigger] t.parent == i;
                        if a.contains(t) {
                            assert(Self::parents(a).contains(i));
                        }
                    }
                    if Self::parents(a).contains(i) {
                        let t = choose|t: TurnID| a.contains(t) && #[trigger] t.parent == i;
                        assert(b.contains(t));
                    }
                    if i == all@[k as int].parent {
                        assert(b.contains(all@[k as int]));
                    }
                }
                assert(self.changed_intersections@ =~= old(self).changed_intersections@.union(
                    Self::parents(b),
                ));
            }
            k = k + 1;
        }
        proof {
            assert(all@.take(k as int) =~= all@);
        }
    }
}

} // verus!
