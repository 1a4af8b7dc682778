//! Taking edits that were saved into use for a map.

use vstd::prelude::*;
use vstd::string::*;
use crate::edits::log::MapEdits;
use crate::edits::{cmds_view, EditCmd, EditCmdView};
use crate::map::StreetMap;

verus! {

/// Edits in the form in which they are stored: for a map of a city, under
/// a name, with their commands. The bytes of a file are turned into this form
/// outside of this library.
#[derive(Debug)]
pub struct PermanentMapEdits {
    /// The city of the map that the edits were made for.
    pub city: String,
    pub edits_name: String,
    pub commands: Vec<EditCmd>,
    pub merge_zones: bool,
    pub proposal_description: Vec<String>,
    pub proposal_link: Option<String>,
}

/// Why saved edits cannot be used for a map.
#[derive(Clone, Copy, Debug, PartialEq, Eq, Structural)]
pub enum LoadError {
    /// The edits were made for another city.
    WrongCity,
    /// None of the commands has a target in this map.
    NothingApplies,
}

/// Whether stored edits of the given version can still be read: those of
/// version 8 and later can.
pub fn version_readable(version: u64) -> (b: bool)
    ensures
        b == (version >= 8),
{
    version >= 8
}

/// Those of the first `n` commands whose target the map has.
pub open spec fn applicable(map: &StreetMap, cmds: Seq<EditCmd>, n: int) -> Seq<EditCmdView>
    decreases n,
{
    if n <= 0 {
        Seq::empty()
    } else if map.has_target(cmds[n - 1]) {
        applicable(map, cmds, n - 1).push(cmds[n - 1]@)
    } else {
        applicable(map, cmds, n - 1)
    }
}

impl EditCmd {
    /// Whether the map has the target of the command: see
    /// [`StreetMap::has_target`].
    pub fn targets_exist(&self, map: &StreetMap) -> (b: bool)
        ensures
            b == map.has_target(*self),
    {
        match self {
            EditCmd::ChangeRoad { r, .. } => r.0 < map.roads.len(),
            EditCmd::ChangeIntersection { i, .. } => i.0 < map.intersections.len()
                && !map.intersections[i.0].is_border(),
            EditCmd::ChangeRouteSchedule { id, .. } => id.0 < map.transit_routes.len(),
            EditCmd::ChangeCrosswalks { i, old, new } => i.0 < map.intersections.len()
                && old.is_well_formed() && new.is_well_formed(),
        }
    }
}

impl StreetMap {
    /// Whether the map has the target of every one of the commands.
    pub fn has_all_targets(&self, cmds: &Vec<EditCmd>) -> (b: bool)
        ensures
            b == self.has_targets(cmds@),
    {
        let mut k: usize = 0;
        while k < cmds.len()
            invariant
                k <= cmds.len(),
                forall|j: int| 0 <= j < k ==> self.has_target(#[trigger] cmds@[j]),
            decreases cmds.len() - k,
        {
            if !cmds[k].targets_exist(self) {
                return false;
            }
            k = k + 1;
        }
        true
    }
}

impl MapEdits {
    /// Takes edits that were read from stored bytes into use for a map. The
    /// commands whose target the map does not have are left out, and so are
    /// changes to crossings that name a turn twice. It is an
    /// error if no command is left: then the edits are hardly meant for this
    /// map.
    pub fn load_from_bytes(map: &StreetMap, perma: PermanentMapEdits) -> (res: Result<
        MapEdits,
        LoadError,
    >)
        ensures
            match res {
                Ok(edits) => {
                    &&& cmds_view(edits.commands@) == applicable(
                        map,
                        perma.commands@,
                        perma.commands.len() as int,
                    )
                    &&& edits.commands.len() > 0
                    &&& map.has_targets(edits.commands@)
                    &&& edits.edits_name == perma.edits_name
                    &&& edits.merge_zones == perma.merge_zones
                    &&& edits.proposal_description == perma.proposal_description
                    &&& edits.proposal_link == perma.proposal_link
                    &&& edits.changed_roads@.len() == 0
                    &&& edits.original_intersections@.len() == 0
                    &&& edits.original_crosswalks@.len() == 0
                    &&& edits.changed_routes@.len() == 0
                },
                Err(e) => e == LoadError::NothingApplies && applicable(
                    map,
                    perma.commands@,
                    perma.commands.len() as int,
                ).len() == 0,
            },
    {
        let PermanentMapEdits {
            city: _,
            edits_name,
            commands: saved,
            merge_zones,
            proposal_description,
            proposal_link,
        } = perma;
        let mut commands: Vec<EditCmd> = Vec::new();
        let mut k: usize = 0;
        proof {
            assert(cmds_view(commands@) =~= applicable(map, saved@, 0));
        }
        while k < saved.len()
            invariant
                k <= saved.len(),
                cmds_view(commands@) == applicable(map, saved@, k as int),
                map.has_targets(commands@),
            decreases saved.len() - k,
        {
            if saved[k].targets_exist(map) {
                let ghost before = commands@;
                let cmd = saved[k].clone();
                let ghost kept = cmd;
                commands.push(cmd);
                proof {
                    assert(cmds_view(commands@) =~= cmds_view(before).push(saved@[k as int]@));
                    assert forall|j: int| 0 <= j < commands@.len() implies map.has_target(
                        #[trigger] commands@[j],
                    ) by {
                        if j < before.len() {
                            assert(map.has_target(before[j]));
                        } else {
                            lemma_same_target(map, saved@[k as int], kept);
                        }
                    }
                }
            }
            k = k + 1;
        }
        if commands.len() == 0 {
            return Err(LoadError::NothingApplies);
        }
        Ok(
            MapEdits {
                edits_name,
                commands,
                merge_zones,
                changed_roads: Vec::new(),
                original_intersections: Vec::new(),
                original_crosswalks: Vec::new(),
                changed_routes: Vec::new(),
                proposal_description,
                proposal_link,
            },
        )
    }

    /// Takes edits that were read from a file into use for a map, as
    /// [`MapEdits::load_from_bytes`] does. Before that the city is compared:
    /// it is an error if the edits were made for a map of another city.
    pub fn load_from_file(map: &StreetMap, perma: PermanentMapEdits) -> (res: Result<
        MapEdits,
        LoadError,
    >)
        ensures
            match res {
                Ok(edits) => {
                    &&& perma.city@ == map.city@
                    &&& cmds_view(edits.commands@) == applicable(
                        map,
                        perma.commands@,
                        perma.commands.len() as int,
                    )
                    &&& edits.commands.len() > 0
                    &&& map.has_targets(edits.commands@)
                    &&& edits.edits_name == perma.edits_name
                    &&& edits.merge_zones == perma.merge_zones
                    &&& edits.proposal_description == perma.proposal_description
                    &&& edits.proposal_link == perma.proposal_link
                    &&& edits.changed_roads@.len() == 0
                    &&& edits.original_intersections@.len() == 0
                    &&& edits.original_crosswalks@.len() == 0
                    &&& edits.changed_routes@.len() == 0
                },
                Err(LoadError::WrongCity) => perma.city@ != map.city@,
                Err(LoadError::NothingApplies) => perma.city@ == map.city@ && applicable(
                    map,
                    perma.commands@,
                    perma.commands.len() as int,
                ).len() == 0,
            },
    {
        if perma.city != map.city {
            return Err(LoadError::WrongCity);
        }
        Self::load_from_bytes(map, perma)
    }
}

/// Two commands that hold the same, the entries for crossings in the same
/// order, have the same target.
pub proof fn lemma_same_target(map: &StreetMap, a: EditCmd, b: EditCmd)
    requires
        a@ == b@,
        a.same_entries(b),
    ensures
        map.has_target(a) == map.has_target(b),
{
}

} // verus!
