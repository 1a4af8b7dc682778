//! Turns and movements through an intersection.

use vstd::prelude::*;
use crate::ids::{MovementID, TurnID};

verus! {

/// The kind of a turn.
#[derive(Clone, Copy, Debug, PartialEq, Eq, PartialOrd, Ord, Hash, Structural)]
pub enum TurnType {
    /// A marked zebra crossing, where pedestrians usually have priority.
    Crosswalk,
    /// The corner where two sidewalks meet.
    SharedSidewalkCorner,
    Straight,
    Right,
    Left,
    UTurn,
    /// A place where pedestrians cross without markings.
    UnmarkedCrossing,
}

impl TurnType {
    /// Whether pedestrians cross a road along a turn of this type.
    pub open spec fn spec_pedestrian_crossing(self) -> bool {
        self == TurnType::Crosswalk || self == TurnType::UnmarkedCrossing
    }

    #[verifier::when_used_as_spec(spec_pedestrian_crossing)]
    pub fn pedestrian_crossing(self) -> (b: bool)
        ensures
            b == self.spec_pedestrian_crossing(),
    {
        self == TurnType::Crosswalk || self == TurnType::UnmarkedCrossing
    }
}

/// A permitted way from one lane to another through an intersection.
#[derive(Clone, Copy, Debug, PartialEq, Eq, Hash, Structural)]
pub struct Turn {
    pub id: TurnID,
    pub turn_type: TurnType,
}

/// The turns of one intersection that share an origin and a destination.
#[derive(Debug)]
pub struct Movement {
    pub id: MovementID,
    pub turn_type: TurnType,
    pub members: Vec<TurnID>,
}

/// Whether a sequence of turns holds one with the given identifier.
pub open spec fn has_turn(turns: Seq<Turn>, id: TurnID) -> bool {
    exists|k: int| 0 <= k < turns.len() && #[trigger] turns[k].id == id
}

/// Whether no two of the turns have the same name.
pub open spec fn distinct_names(turns: Seq<Turn>) -> bool {
    forall|a: int, b: int|
        0 <= a < b < turns.len() ==> (#[trigger] turns[a]).id != (#[trigger] turns[b]).id
}

/// Whether no two of the turns have the same name: see [`distinct_names`].
pub fn names_are_distinct(turns: &Vec<Turn>) -> (r: bool)
    ensures
        r == distinct_names(turns@),
{
    let mut k: usize = 0;
    while k < turns.len()
        invariant
            k <= turns.len(),
            forall|a: int, b: int|
                0 <= a < b < k ==> (#[trigger] turns[a]).id != (#[trigger] turns[b]).id,
        decreases turns.len() - k,
    {
        match find_turn(turns, turns[k].id) {
            Some(first) => {
                if first != k {
                    assert(turns[first as int].id == turns[k as int].id);
                    return false;
                }
            },
            None => {
                assert(turns@[k as int].id == turns[k as int].id);
                return false;
            },
        }
        k = k + 1;
    }
    true
}

/// The position of the first turn with the given identifier, if there is one.
pub fn find_turn(turns: &Vec<Turn>, id: TurnID) -> (r: Option<usize>)
    ensures
        match r {
            Some(k) => k < turns.len() && turns[k as int].id == id && forall|j: int|
                0 <= j < k ==> turns[j].id != id,
            None => !has_turn(turns@, id),
        },
{
    let mut k: usize = 0;
    while k < turns.len()
        invariant
            k <= turns.len(),
            forall|j: int| 0 <= j < k ==> turns[j].id != id,
        decreases turns.len() - k,
    {
        if turns[k].id == id {
            return Some(k);
        }
        k = k + 1;
    }
    None
}

} // verus!
