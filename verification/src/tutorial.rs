//! Where a player stands in a guided tour of the map editor, and which view
//! of a neighbourhood is open.

use vstd::prelude::*;

verus! {

/// A place in a tour: a stage, and a part of that stage. The parts of a stage
/// are its messages, in their order, and after them its task.
#[derive(Clone, Copy, Debug, PartialEq, Eq, PartialOrd, Ord, Structural)]
pub struct TutorialPointer {
    pub stage: usize,
    pub part: usize,
}

impl TutorialPointer {
    /// The place at the given part of the given stage.
    pub fn new(stage: usize, part: usize) -> (p: TutorialPointer)
        ensures
            p.stage == stage,
            p.part == part,
    {
        TutorialPointer { stage, part }
    }
}

/// The views of a neighbourhood.
#[derive(Clone, Copy, Debug, PartialEq, Eq, Structural)]
pub enum Mode {
    PickArea,
    ModifyNeighbourhood,
    SelectBoundary,
    RoutePlanner,
    Crossings,
    Impact,
}

} // verus!
