//! How an intersection is controlled: by stop signs or by a traffic signal.

use vstd::prelude::*;
use crate::ids::{IntersectionID, LaneID, MovementID, RoadID};
use crate::units::Duration;
use crate::vecs::{copy_vec, same_vec};

verus! {

/// The stop sign policy for one road that leads into an intersection.
#[derive(Clone, Copy, Debug, PartialEq, Eq, Hash, Structural)]
pub struct RoadWithStopSign {
    pub road: RoadID,
    /// The travel lane of the road that is closest to the kerb, where the sign stands.
    pub lane_closest_to_edge: LaneID,
    pub must_stop: bool,
}

/// The stop signs of one intersection: one entry for each road with travel
/// lanes that lead into it.
#[derive(Debug)]
pub struct ControlStopSign {
    pub id: IntersectionID,
    pub roads: Vec<RoadWithStopSign>,
}

/// What a [`ControlStopSign`] holds.
pub ghost struct ControlStopSignView {
    pub id: IntersectionID,
    pub roads: Seq<RoadWithStopSign>,
}

impl View for ControlStopSign {
    type V = ControlStopSignView;

    open spec fn view(&self) -> ControlStopSignView {
        ControlStopSignView { id: self.id, roads: self.roads@ }
    }
}

impl Clone for ControlStopSign {
    fn clone(&self) -> (r: Self)
        ensures
            r@ == self@,
    {
        ControlStopSign { id: self.id, roads: copy_vec(&self.roads) }
    }
}

impl ControlStopSign {
    /// Whether the two hold the same policy.
    pub fn same_as(&self, other: &ControlStopSign) -> (b: bool)
        ensures
            b == (self@ == other@),
    {
        self.id == other.id && same_vec(&self.roads, &other.roads)
    }
}

/// Whether a movement may go without giving way during a stage.
#[derive(Clone, Copy, Debug, PartialEq, Eq, Hash, Structural)]
pub enum TurnPriority {
    Protected,
    Yield,
}

/// One movement that a signal lets through during one of its stages.
#[derive(Clone, Copy, Debug, PartialEq, Eq, Hash, Structural)]
pub struct SignalEntry {
    /// The stage, counted from zero.
    pub stage: usize,
    pub movement: MovementID,
    pub priority: TurnPriority,
}

/// The timing of a traffic signal as it is stored and exchanged: the length of
/// each stage, and which movements go in which stage. It is not tied to the
/// turns that an intersection currently has.
#[derive(Debug)]
pub struct TrafficSignal {
    pub offset: Duration,
    pub stage_durations: Vec<Duration>,
    pub entries: Vec<SignalEntry>,
}

/// What a [`TrafficSignal`] holds.
pub ghost struct TrafficSignalView {
    pub offset: Duration,
    pub stage_durations: Seq<Duration>,
    pub entries: Seq<SignalEntry>,
}

impl View for TrafficSignal {
    type V = TrafficSignalView;

    open spec fn view(&self) -> TrafficSignalView {
        TrafficSignalView {
            offset: self.offset,
            stage_durations: self.stage_durations@,
            entries: self.entries@,
        }
    }
}

impl Clone for TrafficSignal {
    fn clone(&self) -> (r: Self)
        ensures
            r@ == self@,
    {
        TrafficSignal {
            offset: self.offset,
            stage_durations: copy_vec(&self.stage_durations),
            entries: copy_vec(&self.entries),
        }
    }
}

impl TrafficSignal {
    /// Whether the two hold the same timing.
    pub fn same_as(&self, other: &TrafficSignal) -> (b: bool)
        ensures
            b == (self@ == other@),
    {
        self.offset == other.offset && same_vec(&self.stage_durations, &other.stage_durations)
            && same_vec(&self.entries, &other.entries)
    }
}

/// A traffic signal installed at an intersection. Every movement that it names
/// was a movement of the intersection when the signal was installed.
#[derive(Debug)]
pub struct ControlTrafficSignal {
    pub id: IntersectionID,
    pub timing: TrafficSignal,
}

impl ControlTrafficSignal {
    /// The timing of the signal in the form in which it is stored.
    pub fn export(&self) -> (raw: TrafficSignal)
        ensures
            raw@ == self.timing@,
    {
        self.timing.clone()
    }
}

} // verus!
