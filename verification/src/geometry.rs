//! Shapes on the ground, in fixed point.
//!
//! The map stores shapes and hands them on; it never computes with them. All
//! geometric computation is done by a [`crate::services::Geometry`] that the
//! caller supplies.

use vstd::prelude::*;
use crate::ids::LaneID;
use crate::units::Distance;
use crate::vecs::copy_vec;

verus! {

/// A point, in ten-thousandths of a metre from the map's origin.
#[derive(Clone, Copy, Debug, PartialEq, Eq, Hash, Structural)]
pub struct Pt2D {
    pub x: i32,
    pub y: i32,
}

/// A line through a sequence of points.
#[derive(Debug)]
pub struct PolyLine {
    pub pts: Vec<Pt2D>,
}

impl View for PolyLine {
    type V = Seq<Pt2D>;

    open spec fn view(&self) -> Seq<Pt2D> {
        self.pts@
    }
}

impl Clone for PolyLine {
    fn clone(&self) -> (r: Self)
        ensures
            r@ == self@,
    {
        PolyLine { pts: copy_vec(&self.pts) }
    }
}

/// A closed shape, given by the points of its outline.
#[derive(Debug)]
pub struct Polygon {
    pub pts: Vec<Pt2D>,
}

impl View for Polygon {
    type V = Seq<Pt2D>;

    open spec fn view(&self) -> Seq<Pt2D> {
        self.pts@
    }
}

impl Clone for Polygon {
    fn clone(&self) -> (r: Self)
        ensures
            r@ == self@,
    {
        Polygon { pts: copy_vec(&self.pts) }
    }
}

/// A place on a lane, measured from the start of the lane.
#[derive(Clone, Copy, Debug, PartialEq, Eq, Hash, Structural)]
pub struct Position {
    pub lane: LaneID,
    pub dist_along: Distance,
}

} // verus!
