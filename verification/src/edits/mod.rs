//! Edits to a map: snapshots of what can be edited, the commands that change
//! it, and the log of commands that a map has applied.

use vstd::prelude::*;
use crate::control::{ControlStopSign, ControlStopSignView, TrafficSignal, TrafficSignalView};
use crate::id_set::IdSet;
use crate::ids::{
    IntersectionID, LaneID, ParkingLotID, RoadID, TransitRouteID, TransitStopID, TurnID,
};
use crate::lane::LaneSpec;
use crate::road::AccessRestrictions;
use crate::turn::Turn;
use crate::units::{Speed, Time};
use crate::vecs::{copy_vec, same_vec};

pub mod apply;
pub mod compress;
pub mod compress_law;
pub mod derived;
pub mod describe;
pub mod driveways;
pub mod lanes;
pub mod load;
pub mod laws;
pub mod log;
pub mod orchestrate;
pub mod session;
pub mod shape;
pub mod snapshot;
pub mod turns;

verus! {

/// The editable state of one road.
#[derive(Debug)]
pub struct EditRoad {
    /// The lanes from left to right.
    pub lanes_ltr: Vec<LaneSpec>,
    pub speed_limit: Speed,
    pub access_restrictions: AccessRestrictions,
}

/// What an [`EditRoad`] holds.
pub ghost struct EditRoadView {
    pub lanes_ltr: Seq<LaneSpec>,
    pub speed_limit: Speed,
    pub access_restrictions: AccessRestrictions,
}

impl View for EditRoad {
    type V = EditRoadView;

    open spec fn view(&self) -> EditRoadView {
        EditRoadView {
            lanes_ltr: self.lanes_ltr@,
            speed_limit: self.speed_limit,
            access_restrictions: self.access_restrictions,
        }
    }
}

impl Clone for EditRoad {
    fn clone(&self) -> (r: Self)
        ensures
            r@ == self@,
    {
        EditRoad {
            lanes_ltr: copy_vec(&self.lanes_ltr),
            speed_limit: self.speed_limit,
            access_restrictions: self.access_restrictions,
        }
    }
}

impl EditRoad {
    /// Whether the two snapshots are the same.
    pub fn same_as(&self, other: &EditRoad) -> (b: bool)
        ensures
            b == (self@ == other@),
    {
        self.speed_limit == other.speed_limit && self.access_restrictions.same_as(
            &other.access_restrictions,
        ) && same_vec(&self.lanes_ltr, &other.lanes_ltr)
    }
}

/// The editable state of one intersection: how it is controlled, or that it is
/// closed. A signal is held as its stored timing, not as a signal resolved
/// against the turns of the intersection, since those change with the lanes.
#[derive(Debug)]
pub enum EditIntersection {
    StopSign(ControlStopSign),
    TrafficSignal(TrafficSignal),
    Closed,
}

/// What an [`EditIntersection`] holds.
pub ghost enum EditIntersectionView {
    StopSign(ControlStopSignView),
    TrafficSignal(TrafficSignalView),
    Closed,
}

impl View for EditIntersection {
    type V = EditIntersectionView;

    open spec fn view(&self) -> EditIntersectionView {
        match self {
            EditIntersection::StopSign(ss) => EditIntersectionView::StopSign(ss@),
            EditIntersection::TrafficSignal(ts) => EditIntersectionView::TrafficSignal(ts@),
            EditIntersection::Closed => EditIntersectionView::Closed,
        }
    }
}

impl Clone for EditIntersection {
    fn clone(&self) -> (r: Self)
        ensures
            r@ == self@,
    {
        match self {
            EditIntersection::StopSign(ss) => EditIntersection::StopSign(ss.clone()),
            EditIntersection::TrafficSignal(ts) => EditIntersection::TrafficSignal(ts.clone()),
            EditIntersection::Closed => EditIntersection::Closed,
        }
    }
}

impl EditIntersection {
    /// Whether the two snapshots are the same.
    pub fn same_as(&self, other: &EditIntersection) -> (b: bool)
        ensures
            b == (self@ == other@),
    {
        match (self, other) {
            (EditIntersection::StopSign(a), EditIntersection::StopSign(b)) => a.same_as(b),
            (EditIntersection::TrafficSignal(a),
                EditIntersection::TrafficSignal(b)) => a.same_as(b),
            (EditIntersection::Closed, EditIntersection::Closed) => true,
            _ => false,
        }
    }

    /// Whether the snapshot is of a closed intersection.
    pub fn is_closed(&self) -> (b: bool)
        ensures
            b == (self@ == EditIntersectionView::Closed),
    {
        match self {
            EditIntersection::Closed => true,
            _ => false,
        }
    }
}

/// The types of all the turns of one intersection along which pedestrians
/// cross a road: each is a marked crosswalk or an unmarked crossing. Two
/// snapshots are the same when they give the same types to the same turns, in
/// whatever order. No turn should be named twice: see
/// [`EditCrosswalks::wf`].
#[derive(Debug)]
pub struct EditCrosswalks(pub Vec<Turn>);

impl View for EditCrosswalks {
    type V = Set<Turn>;

    open spec fn view(&self) -> Set<Turn> {
        self.0@.to_set()
    }
}

impl Clone for EditCrosswalks {
    fn clone(&self) -> (r: Self)
        ensures
            r@ == self@,
            r.0@ == self.0@,
            r.wf() == self.wf(),
    {
        let r = EditCrosswalks(copy_vec(&self.0));
        proof {
            r.lemma_wf();
            self.lemma_wf();
        }
        r
    }
}

impl EditCrosswalks {
    /// Whether no turn is named twice. The snapshots that the library makes
    /// are so.
    #[verifier::opaque]
    pub open spec fn wf(&self) -> bool {
        crate::turn::distinct_names(self.0@)
    }

    /// What [`EditCrosswalks::wf`] says.
    pub proof fn lemma_wf(&self)
        ensures
            self.wf() == crate::turn::distinct_names(self.0@),
    {
        reveal(EditCrosswalks::wf);
    }

    /// Whether no turn is named twice: see [`EditCrosswalks::wf`].
    pub fn is_well_formed(&self) -> (b: bool)
        ensures
            b == self.wf(),
    {
        proof {
            self.lemma_wf();
        }
        crate::turn::names_are_distinct(&self.0)
    }

    /// The given types for the given turns, unless a turn is named twice.
    pub fn new(turns: Vec<Turn>) -> (r: Option<EditCrosswalks>)
        ensures
            match r {
                Some(e) => e.0@ == turns@ && e.wf(),
                None => !crate::turn::distinct_names(turns@),
            },
    {
        if crate::turn::names_are_distinct(&turns) {
            let e = EditCrosswalks(turns);
            proof {
                e.lemma_wf();
            }
            Some(e)
        } else {
            None
        }
    }

    /// Whether every entry of `self` is an entry of `other`.
    fn within(&self, other: &EditCrosswalks) -> (b: bool)
        ensures
            b == self@.subset_of(other@),
    {
        let mut k: usize = 0;
        while k < self.0.len()
            invariant
                k <= self.0.len(),
                forall|j: int| 0 <= j < k ==> other.0@.contains(self.0@[j]),
            decreases self.0.len() - k,
        {
            if !crate::vecs::vec_contains(&other.0, self.0[k]) {
                proof {
                    assert(self.0@.contains(self.0@[k as int]));
                    assert(self@.contains(self.0@[k as int]));
                    assert(!other@.contains(self.0@[k as int]));
                }
                return false;
            }
            k = k + 1;
        }
        proof {
            assert forall|t: Turn| self@.contains(t) implies other@.contains(t) by {
                let j = choose|j: int| 0 <= j < self.0@.len() && self.0@[j] == t;
                assert(other.0@.contains(self.0@[j]));
            }
        }
        true
    }

    /// Whether the two snapshots are the same.
    pub fn same_as(&self, other: &EditCrosswalks) -> (b: bool)
        ensures
            b == (self@ == other@),
    {
        let b = self.within(other) && other.within(self);
        proof {
            if b {
                assert(self@ =~= other@);
            }
        }
        b
    }
}

/// One change to one target, with the state before it and the state after it.
#[derive(Debug)]
#[allow(inconsistent_fields)]
pub enum EditCmd {
    ChangeRoad { r: RoadID, old: EditRoad, new: EditRoad },
    ChangeIntersection { i: IntersectionID, new: EditIntersection, old: EditIntersection },
    ChangeRouteSchedule { id: TransitRouteID, old: Vec<Time>, new: Vec<Time> },
    ChangeCrosswalks { i: IntersectionID, old: EditCrosswalks, new: EditCrosswalks },
}

/// What an [`EditCmd`] holds.
#[allow(inconsistent_fields)]
pub ghost enum EditCmdView {
    ChangeRoad { r: RoadID, old: EditRoadView, new: EditRoadView },
    ChangeIntersection { i: IntersectionID, new: EditIntersectionView, old: EditIntersectionView },
    ChangeRouteSchedule { id: TransitRouteID, old: Seq<Time>, new: Seq<Time> },
    ChangeCrosswalks { i: IntersectionID, old: Set<Turn>, new: Set<Turn> },
}

impl View for EditCmd {
    type V = EditCmdView;

    open spec fn view(&self) -> EditCmdView {
        match self {
            EditCmd::ChangeRoad { r, old, new } => EditCmdView::ChangeRoad {
                r: *r,
                old: old@,
                new: new@,
            },
            EditCmd::ChangeIntersection { i, new, old } => EditCmdView::ChangeIntersection {
                i: *i,
                new: new@,
                old: old@,
            },
            EditCmd::ChangeRouteSchedule { id, old, new } => EditCmdView::ChangeRouteSchedule {
                id: *id,
                old: old@,
                new: new@,
            },
            EditCmd::ChangeCrosswalks { i, old, new } => EditCmdView::ChangeCrosswalks {
                i: *i,
                old: old@,
                new: new@,
            },
        }
    }
}

impl EditCmdView {
    /// The command that takes back what this one does: the same target, with
    /// the states before and after exchanged.
    pub open spec fn undo(self) -> EditCmdView {
        match self {
            EditCmdView::ChangeRoad { r, old, new } => EditCmdView::ChangeRoad { r, old: new,
                new: old },
            EditCmdView::ChangeIntersection { i, new, old } => EditCmdView::ChangeIntersection {
                i,
                new: old,
                old: new,
            },
            EditCmdView::ChangeRouteSchedule { id, old, new } => EditCmdView::ChangeRouteSchedule {
                id,
                old: new,
                new: old,
            },
            EditCmdView::ChangeCrosswalks { i, old, new } => EditCmdView::ChangeCrosswalks {
                i,
                old: new,
                new: old,
            },
        }
    }
}

impl Clone for EditCmd {
    fn clone(&self) -> (r: Self)
        ensures
            r@ == self@,
            r.same_entries(*self),
    {
        match self {
            EditCmd::ChangeRoad { r, old, new } => EditCmd::ChangeRoad {
                r: *r,
                old: old.clone(),
                new: new.clone(),
            },
            EditCmd::ChangeIntersection { i, new, old } => EditCmd::ChangeIntersection {
                i: *i,
                new: new.clone(),
                old: old.clone(),
            },
            EditCmd::ChangeRouteSchedule { id, old, new } => EditCmd::ChangeRouteSchedule {
                id: *id,
                old: copy_vec(old),
                new: copy_vec(new),
            },
            EditCmd::ChangeCrosswalks { i, old, new } => EditCmd::ChangeCrosswalks {
                i: *i,
                old: old.clone(),
                new: new.clone(),
            },
        }
    }
}

impl EditCmd {
    /// Whether the entries that this command gives for crossings, before and
    /// after, are those that `other` gives after and before, in their order.
    pub open spec fn exchanged(self, other: EditCmd) -> bool {
        match (self, other) {
            (
                EditCmd::ChangeCrosswalks { old: now_old, new: now_new, .. },
                EditCmd::ChangeCrosswalks { old: was_old, new: was_new, .. },
            ) => now_old == was_new && now_new == was_old,
            _ => true,
        }
    }

    /// Whether the entries that this command gives for crossings are those
    /// that `other` gives, in their order.
    pub open spec fn same_entries(self, other: EditCmd) -> bool {
        match (self, other) {
            (
                EditCmd::ChangeCrosswalks { old: now_old, new: now_new, .. },
                EditCmd::ChangeCrosswalks { old: was_old, new: was_new, .. },
            ) => now_old.0@ == was_old.0@ && now_new.0@ == was_new.0@ && now_old.wf()
                == was_old.wf() && now_new.wf() == was_new.wf(),
            _ => true,
        }
    }

    /// Whether the two commands are the same.
    pub fn same_as(&self, other: &EditCmd) -> (b: bool)
        ensures
            b == (self@ == other@),
    {
        match (self, other) {
            (
                EditCmd::ChangeRoad { r: r1, old: old1, new: new1 },
                EditCmd::ChangeRoad { r: r2, old: old2, new: new2 },
            ) => *r1 == *r2 && old1.same_as(old2) && new1.same_as(new2),
            (
                EditCmd::ChangeIntersection { i: i1, new: new1, old: old1 },
                EditCmd::ChangeIntersection { i: i2, new: new2, old: old2 },
            ) => *i1 == *i2 && old1.same_as(old2) && new1.same_as(new2),
            (
                EditCmd::ChangeRouteSchedule { id: id1, old: old1, new: new1 },
                EditCmd::ChangeRouteSchedule { id: id2, old: old2, new: new2 },
            ) => *id1 == *id2 && same_vec(old1, old2) && same_vec(new1, new2),
            (
                EditCmd::ChangeCrosswalks { i: i1, old: old1, new: new1 },
                EditCmd::ChangeCrosswalks { i: i2, old: old2, new: new2 },
            ) => *i1 == *i2 && old1.same_as(old2) && new1.same_as(new2),
            _ => false,
        }
    }

    /// The command that takes back what this one does: the same target, with
    /// the states before and after exchanged as they are, the entries of
    /// crossings in their order. The map is not touched.
    pub fn undo(self) -> (r: EditCmd)
        ensures
            r@ == self@.undo(),
            r.exchanged(self),
    {
        match self {
            EditCmd::ChangeRoad { r, old, new } => EditCmd::ChangeRoad { r, old: new, new: old },
            EditCmd::ChangeIntersection { i, old, new } => EditCmd::ChangeIntersection {
                i,
                old: new,
                new: old,
            },
            EditCmd::ChangeCrosswalks { i, old, new } => EditCmd::ChangeCrosswalks {
                i,
                old: new,
                new: old,
            },
            EditCmd::ChangeRouteSchedule { id, old, new } => EditCmd::ChangeRouteSchedule {
                id,
                old: new,
                new: old,
            },
        }
    }
}

/// The views of a sequence of commands.
pub open spec fn cmds_view(cmds: Seq<EditCmd>) -> Seq<EditCmdView> {
    Seq::new(cmds.len(), |k: int| cmds[k]@)
}

/// Why a transaction could not be completed. Each of these means that the map
/// and the edits do not belong together; the map is still sound afterwards,
/// but the edits are applied in part only.
#[derive(Clone, Copy, Debug, PartialEq, Eq, Structural)]
pub enum ApplyError {
    /// The geometry gave no shape for the intersection, or not one centerline
    /// for each of its roads, in whatever order.
    NoIntersectionShape(IntersectionID),
    /// A signal timing names a stage or a movement that the intersection does
    /// not have.
    SignalDoesNotFit(IntersectionID),
    /// A command changes the type of a turn that the intersection does not
    /// have.
    UnknownTurn(TurnID),
    /// A transit stop is left without a lane on its road that its vehicles may
    /// use.
    OrphanedStop(TransitStopID),
}

/// Everything that one transaction touched. The caller uses it to redraw and
/// recompute only what changed.
pub struct EditEffects {
    pub changed_roads: IdSet<RoadID>,
    pub deleted_lanes: IdSet<LaneID>,
    pub changed_intersections: IdSet<IntersectionID>,
    pub added_turns: IdSet<TurnID>,
    pub deleted_turns: IdSet<TurnID>,
    pub changed_parking_lots: IdSet<ParkingLotID>,
    /// The lanes that were deleted or made anew; driveways that lead to one of
    /// them are connected again.
    pub modified_lanes: IdSet<LaneID>,
}

impl EditEffects {
    /// Whether nothing was touched.
    pub open spec fn is_empty(self) -> bool {
        &&& self.changed_roads@ == Set::<RoadID>::empty()
        &&& self.deleted_lanes@ == Set::<LaneID>::empty()
        &&& self.changed_intersections@ == Set::<IntersectionID>::empty()
        &&& self.added_turns@ == Set::<TurnID>::empty()
        &&& self.deleted_turns@ == Set::<TurnID>::empty()
        &&& self.changed_parking_lots@ == Set::<ParkingLotID>::empty()
        &&& self.modified_lanes@ == Set::<LaneID>::empty()
    }

    /// Whether everything that `before` records is recorded here too.
    pub open spec fn extends(&self, before: &EditEffects) -> bool {
        &&& before.changed_roads@.subset_of(self.changed_roads@)
        &&& before.deleted_lanes@.subset_of(self.deleted_lanes@)
        &&& before.changed_intersections@.subset_of(self.changed_intersections@)
        &&& before.added_turns@.subset_of(self.added_turns@)
        &&& before.deleted_turns@.subset_of(self.deleted_turns@)
        &&& before.changed_parking_lots@.subset_of(self.changed_parking_lots@)
        &&& before.modified_lanes@.subset_of(self.modified_lanes@)
    }

    /// Whether the two differ at most in the turns that they record.
    pub open spec fn same_but_turns(&self, other: &EditEffects) -> bool {
        &&& self.changed_roads == other.changed_roads
        &&& self.deleted_lanes == other.deleted_lanes
        &&& self.changed_intersections == other.changed_intersections
        &&& self.changed_parking_lots == other.changed_parking_lots
        &&& self.modified_lanes == other.modified_lanes
    }

    /// Whether the two differ at most in the roads and lanes that they record.
    pub open spec fn same_but_lanes(&self, other: &EditEffects) -> bool {
        &&& self.changed_intersections == other.changed_intersections
        &&& self.added_turns == other.added_turns
        &&& self.deleted_turns == other.deleted_turns
        &&& self.changed_parking_lots == other.changed_parking_lots
    }

    /// Whether the two differ at most in the lanes that they record as
    /// deleted.
    pub open spec fn same_but_deleted_lanes(&self, other: &EditEffects) -> bool {
        &&& self.same_but_lanes(other)
        &&& self.changed_roads == other.changed_roads
        &&& self.modified_lanes == other.modified_lanes
    }

    /// Whether the two differ at most in the lanes that they record as
    /// modified.
    pub open spec fn same_but_modified_lanes(&self, other: &EditEffects) -> bool {
        &&& self.same_but_lanes(other)
        &&& self.changed_roads == other.changed_roads
        &&& self.deleted_lanes == other.deleted_lanes
    }

    /// Whether the two differ at most in the intersections and turns that
    /// they record.
    pub open spec fn same_but_intersections(&self, other: &EditEffects) -> bool {
        &&& self.changed_roads == other.changed_roads
        &&& self.deleted_lanes == other.deleted_lanes
        &&& self.changed_parking_lots == other.changed_parking_lots
        &&& self.modified_lanes == other.modified_lanes
    }

    /// Whether the two differ at most in the roads that they record.
    pub open spec fn same_but_roads(&self, other: &EditEffects) -> bool {
        &&& self.deleted_lanes == other.deleted_lanes
        &&& self.changed_intersections == other.changed_intersections
        &&& self.added_turns == other.added_turns
        &&& self.deleted_turns == other.deleted_turns
        &&& self.changed_parking_lots == other.changed_parking_lots
        &&& self.modified_lanes == other.modified_lanes
    }

    /// Whether the two differ at most in the turns that they record as added.
    pub open spec fn same_but_added_turns(&self, other: &EditEffects) -> bool {
        &&& self.same_but_turns(other)
        &&& self.deleted_turns == other.deleted_turns
    }

    /// The effects of a transaction that has not touched anything yet.
    pub fn new() -> (e: EditEffects)
        ensures
            e.is_empty(),
    {
        EditEffects {
            changed_roads: IdSet::new(),
            deleted_lanes: IdSet::new(),
            changed_intersections: IdSet::new(),
            added_turns: IdSet::new(),
            deleted_turns: IdSet::new(),
            changed_parking_lots: IdSet::new(),
            modified_lanes: IdSet::new(),
        }
    }
}

} // verus!
