//! Intersections.

use vstd::prelude::*;
use crate::control::{ControlStopSign, ControlTrafficSignal};
use crate::edits::EditIntersectionView;
use crate::geometry::Polygon;
use crate::ids::{IntersectionID, LaneID, RoadID};
use crate::turn::{Movement, Turn};

verus! {

/// The kind of control of an intersection.
#[derive(Clone, Copy, Debug, PartialEq, Eq, PartialOrd, Ord, Hash, Structural)]
pub enum IntersectionType {
    StopSign,
    TrafficSignal,
    Border,
    Construction,
    Uncontrolled,
}

/// How an intersection is controlled, together with the control structure
/// that belongs to that kind. A border lies at the edge of the map; an
/// intersection under construction is closed to all traffic.
#[derive(Debug)]
pub enum Control {
    StopSign(ControlStopSign),
    Uncontrolled(ControlStopSign),
    TrafficSignal(ControlTrafficSignal),
    Border,
    Construction,
}

/// A place where roads meet.
pub struct Intersection {
    pub id: IntersectionID,
    pub control: Control,
    /// The roads that meet here.
    pub roads: Vec<RoadID>,
    /// The lanes that lead into the intersection.
    pub incoming_lanes: Vec<LaneID>,
    /// The lanes that lead out of the intersection.
    pub outgoing_lanes: Vec<LaneID>,
    pub turns: Vec<Turn>,
    pub movements: Vec<Movement>,
    pub polygon: Polygon,
}

impl Intersection {
    /// The kind of control.
    pub open spec fn kind(self) -> IntersectionType {
        match self.control {
            Control::StopSign(_) => IntersectionType::StopSign,
            Control::Uncontrolled(_) => IntersectionType::Uncontrolled,
            Control::TrafficSignal(_) => IntersectionType::TrafficSignal,
            Control::Border => IntersectionType::Border,
            Control::Construction => IntersectionType::Construction,
        }
    }

    /// The kind of control.
    pub fn intersection_type(&self) -> (t: IntersectionType)
        ensures
            t == self.kind(),
    {
        match &self.control {
            Control::StopSign(_) => IntersectionType::StopSign,
            Control::Uncontrolled(_) => IntersectionType::Uncontrolled,
            Control::TrafficSignal(_) => IntersectionType::TrafficSignal,
            Control::Border => IntersectionType::Border,
            Control::Construction => IntersectionType::Construction,
        }
    }

    /// Whether the intersection lies at the edge of the map.
    pub open spec fn spec_is_border(&self) -> bool {
        self.control is Border
    }

    #[verifier::when_used_as_spec(spec_is_border)]
    pub fn is_border(&self) -> (b: bool)
        ensures
            b == self.spec_is_border(),
    {
        match &self.control {
            Control::Border => true,
            _ => false,
        }
    }

    /// Whether the intersection is closed to all traffic.
    pub open spec fn spec_is_closed(&self) -> bool {
        self.control is Construction
    }

    #[verifier::when_used_as_spec(spec_is_closed)]
    pub fn is_closed(&self) -> (b: bool)
        ensures
            b == self.spec_is_closed(),
    {
        match &self.control {
            Control::Construction => true,
            _ => false,
        }
    }

    /// The current editable state of the intersection. A border has none; for
    /// one this gives `Closed`.
    pub open spec fn edit_state(self) -> EditIntersectionView {
        match self.control {
            Control::StopSign(ss) => EditIntersectionView::StopSign(ss@),
            Control::Uncontrolled(ss) => EditIntersectionView::StopSign(ss@),
            Control::TrafficSignal(ts) => EditIntersectionView::TrafficSignal(ts.timing@),
            Control::Border => EditIntersectionView::Closed,
            Control::Construction => EditIntersectionView::Closed,
        }
    }

    /// The turns along which pedestrians cross a road, with their types.
    pub open spec fn crosswalks(self) -> Set<Turn> {
        Set::new(|t: Turn| self.turns@.contains(t) && t.turn_type.spec_pedestrian_crossing())
    }
}

} // verus!
