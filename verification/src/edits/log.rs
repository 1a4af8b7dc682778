//! The log of commands that a map has applied.

use vstd::prelude::*;
use vstd::string::*;
use crate::edits::{
    cmds_view, EditCmd, EditCmdView, EditCrosswalks, EditIntersection, EditIntersectionView,
};
use crate::ids::{IntersectionID, RoadID, TransitRouteID};
use crate::turn::Turn;
use crate::vecs::same_vec;

verus! {

/// A log of edits to a map, with what is derived from it.
#[derive(Debug)]
pub struct MapEdits {
    pub edits_name: String,
    /// The commands, oldest first. One target may be changed several times.
    pub commands: Vec<EditCmd>,
    /// Whether adjacent roads with the same access restrictions form one zone.
    /// If not, every restricted road is a zone of its own.
    pub merge_zones: bool,
    /// The roads that differ from how they were imported, in ascending order.
    pub changed_roads: Vec<RoadID>,
    /// The intersections that differ from how they were before the first
    /// command that changed them, each with that first state, in ascending
    /// order.
    pub original_intersections: Vec<(IntersectionID, EditIntersection)>,
    /// The same for the crosswalks of intersections.
    pub original_crosswalks: Vec<(IntersectionID, EditCrosswalks)>,
    /// The transit routes whose schedule differs from how it was imported, in
    /// ascending order.
    pub changed_routes: Vec<TransitRouteID>,
    /// For a proposal: its description, the title first.
    pub proposal_description: Vec<String>,
    /// For a proposal: a link to more about it.
    pub proposal_link: Option<String>,
}

/// What the derived part of a [`MapEdits`] holds.
pub ghost struct DerivedView {
    pub changed_roads: Seq<RoadID>,
    pub original_intersections: Seq<(IntersectionID, EditIntersectionView)>,
    pub original_crosswalks: Seq<(IntersectionID, Set<Turn>)>,
    pub changed_routes: Seq<TransitRouteID>,
}

/// What a [`MapEdits`] holds.
pub ghost struct MapEditsView {
    pub edits_name: Seq<char>,
    pub commands: Seq<EditCmdView>,
    pub merge_zones: bool,
    pub derived: DerivedView,
    pub proposal_description: Seq<Seq<char>>,
    pub proposal_link: Option<Seq<char>>,
}

/// The views of the recorded first states of intersections.
pub open spec fn intersections_view(v: Seq<(IntersectionID, EditIntersection)>) -> Seq<
    (IntersectionID, EditIntersectionView),
> {
    Seq::new(v.len(), |k: int| (v[k].0, v[k].1@))
}

/// The views of the recorded first states of crosswalks.
pub open spec fn crosswalks_view(v: Seq<(IntersectionID, EditCrosswalks)>) -> Seq<
    (IntersectionID, Set<Turn>),
> {
    Seq::new(v.len(), |k: int| (v[k].0, v[k].1@))
}

/// The texts of a sequence of strings.
pub open spec fn texts(v: Seq<String>) -> Seq<Seq<char>> {
    Seq::new(v.len(), |k: int| v[k]@)
}

impl MapEdits {
    /// Whether none of the crossings that are recorded names a turn twice:
    /// see [`EditCrosswalks::wf`].
    pub open spec fn records_wf(&self) -> bool {
        forall|k: int|
            0 <= k < self.original_crosswalks.len() ==> (#[trigger] self.original_crosswalks[k]).1.wf()
    }
}

impl View for MapEdits {
    type V = MapEditsView;

    open spec fn view(&self) -> MapEditsView {
        MapEditsView {
            edits_name: self.edits_name@,
            commands: cmds_view(self.commands@),
            merge_zones: self.merge_zones,
            derived: self.derived(),
            proposal_description: texts(self.proposal_description@),
            proposal_link: match self.proposal_link {
                Some(s) => Some(s@),
                None => None,
            },
        }
    }
}

/// Whether two vectors of text hold the same texts.
pub fn same_texts(a: &Vec<String>, b: &Vec<String>) -> (r: bool)
    ensures
        r == (texts(a@) == texts(b@)),
{
    if a.len() != b.len() {
        proof {
            assert(texts(a@).len() != texts(b@).len());
        }
        return false;
    }
    let mut k: usize = 0;
    while k < a.len()
        invariant
            k <= a.len(),
            a.len() == b.len(),
            forall|j: int| 0 <= j < k ==> a@[j]@ == b@[j]@,
        decreases a.len() - k,
    {
        if a[k] != b[k] {
            proof {
                assert(texts(a@)[k as int] != texts(b@)[k as int]);
            }
            return false;
        }
        k = k + 1;
    }
    proof {
        assert(texts(a@) =~= texts(b@));
    }
    true
}

/// Whether two vectors of commands hold the same commands.
pub fn same_commands(a: &Vec<EditCmd>, b: &Vec<EditCmd>) -> (r: bool)
    ensures
        r == (cmds_view(a@) == cmds_view(b@)),
{
    if a.len() != b.len() {
        proof {
            assert(cmds_view(a@).len() != cmds_view(b@).len());
        }
        return false;
    }
    let mut k: usize = 0;
    while k < a.len()
        invariant
            k <= a.len(),
            a.len() == b.len(),
            forall|j: int| 0 <= j < k ==> a@[j]@ == b@[j]@,
        decreases a.len() - k,
    {
        if !a[k].same_as(&b[k]) {
            proof {
                assert(cmds_view(a@)[k as int] != cmds_view(b@)[k as int]);
            }
            return false;
        }
        k = k + 1;
    }
    proof {
        assert(cmds_view(a@) =~= cmds_view(b@));
    }
    true
}

/// The number of commands that two logs have in common at their start.
pub open spec fn common_prefix_len(a: Seq<EditCmdView>, b: Seq<EditCmdView>) -> nat
    decreases a.len(),
{
    if a.len() == 0 || b.len() == 0 || a[0] != b[0] {
        0
    } else {
        1 + common_prefix_len(a.drop_first(), b.drop_first())
    }
}

/// The common start of two logs is a part of both, the logs agree on it, and
/// they differ right after it.
pub proof fn lemma_common_prefix(a: Seq<EditCmdView>, b: Seq<EditCmdView>)
    ensures
        common_prefix_len(a, b) <= a.len(),
        common_prefix_len(a, b) <= b.len(),
        forall|k: int| 0 <= k < common_prefix_len(a, b) ==> a[k] == b[k],
        common_prefix_len(a, b) < a.len() && common_prefix_len(a, b) < b.len()
            ==> a[common_prefix_len(
            a,
            b,
        ) as int] != b[common_prefix_len(a, b) as int],
    decreases a.len(),
{
    if a.len() == 0 || b.len() == 0 || a[0] != b[0] {
    } else {
        lemma_common_prefix(a.drop_first(), b.drop_first());
        let p = common_prefix_len(a.drop_first(), b.drop_first());
        assert forall|k: int| 0 <= k < p + 1 implies a[k] == b[k] by {
            if k > 0 {
                assert(a.drop_first()[k - 1] == b.drop_first()[k - 1]);
            }
        }
        if p + 1 < a.len() && p + 1 < b.len() {
            assert(a.drop_first()[p as int] == a[p as int + 1]);
            assert(b.drop_first()[p as int] == b[p as int + 1]);
        }
    }
}

/// Counts the commands that two logs have in common at their start.
pub fn common_prefix(a: &Vec<EditCmd>, b: &Vec<EditCmd>) -> (p: usize)
    ensures
        p == common_prefix_len(cmds_view(a@), cmds_view(b@)),
        p <= a.len(),
        p <= b.len(),
{
    let mut p: usize = 0;
    proof {
        assert(cmds_view(a@).skip(0) =~= cmds_view(a@));
        assert(cmds_view(b@).skip(0) =~= cmds_view(b@));
    }
    while p < a.len() && p < b.len()
        invariant
            p <= a.len(),
            p <= b.len(),
            common_prefix_len(cmds_view(a@), cmds_view(b@)) == p + common_prefix_len(
                cmds_view(a@).skip(p as int),
                cmds_view(b@).skip(p as int),
            ),
        decreases a.len() - p,
    {
        proof {
            let x = cmds_view(a@).skip(p as int);
            let y = cmds_view(b@).skip(p as int);
            assert(x[0] == a@[p as int]@);
            assert(y[0] == b@[p as int]@);
            assert(x.drop_first() =~= cmds_view(a@).skip(p + 1));
            assert(y.drop_first() =~= cmds_view(b@).skip(p + 1));
        }
        if !a[p].same_as(&b[p]) {
            return p;
        }
        p = p + 1;
    }
    proof {
        let x = cmds_view(a@).skip(p as int);
        let y = cmds_view(b@).skip(p as int);
        assert(x.len() == 0 || y.len() == 0);
    }
    p
}

impl Default for MapEdits {
    fn default() -> (e: MapEdits)
        ensures
            e.commands@.len() == 0,
            e.merge_zones,
            e.edits_name@ == "TODO temporary"@,
            e.changed_roads@.len() == 0,
            e.original_intersections@.len() == 0,
            e.original_crosswalks@.len() == 0,
            e.changed_routes@.len() == 0,
            e.proposal_description@.len() == 0,
            e.proposal_link.is_none(),
    {
        MapEdits::new()
    }
}

impl MapEdits {
    /// An empty log under a name for the time being.
    pub fn new() -> (e: MapEdits)
        ensures
            e.commands@.len() == 0,
            e.merge_zones,
            e.edits_name@ == "TODO temporary"@,
            e.changed_roads@.len() == 0,
            e.original_intersections@.len() == 0,
            e.original_crosswalks@.len() == 0,
            e.changed_routes@.len() == 0,
            e.proposal_description@.len() == 0,
            e.proposal_link.is_none(),
    {
        MapEdits {
            edits_name: String::from_str("TODO temporary"),
            proposal_description: Vec::new(),
            proposal_link: None,
            commands: Vec::new(),
            merge_zones: true,
            changed_roads: Vec::new(),
            original_intersections: Vec::new(),
            original_crosswalks: Vec::new(),
            changed_routes: Vec::new(),
        }
    }

    /// The title of the edits: the first line of the description if there is
    /// one, and the name otherwise.
    pub fn get_title(&self) -> (t: &str)
        ensures
            t@ == if self.proposal_description@.len() == 0 {
                self.edits_name@
            } else {
                self.proposal_description@[0]@
            },
    {
        if self.proposal_description.len() == 0 {
            self.edits_name.as_str()
        } else {
            self.proposal_description[0].as_str()
        }
    }

    /// Whether the recorded first states of intersections are the same.
    fn same_intersections(
        a: &Vec<(IntersectionID, EditIntersection)>,
        b: &Vec<(IntersectionID, EditIntersection)>,
    ) -> (r: bool)
        ensures
            r == (intersections_view(a@) == intersections_view(b@)),
    {
        if a.len() != b.len() {
            proof {
                assert(intersections_view(a@).len() != intersections_view(b@).len());
            }
            return false;
        }
        let mut k: usize = 0;
        while k < a.len()
            invariant
                k <= a.len(),
                a.len() == b.len(),
                forall|j: int| 0 <= j < k ==> a@[j].0 == b@[j].0 && a@[j].1@ == b@[j].1@,
            decreases a.len() - k,
        {
            if a[k].0 != b[k].0 || !a[k].1.same_as(&b[k].1) {
                proof {
                    assert(intersections_view(a@)[k as int] == (a@[k as int].0, a@[k as int].1@));
                    assert(intersections_view(b@)[k as int] == (b@[k as int].0, b@[k as int].1@));
                }
                return false;
            }
            k = k + 1;
        }
        proof {
            assert(intersections_view(a@) =~= intersections_view(b@));
        }
        true
    }

    /// Whether the recorded first states of crossings are the same.
    fn same_crosswalks(
        a: &Vec<(IntersectionID, EditCrosswalks)>,
        b: &Vec<(IntersectionID, EditCrosswalks)>,
    ) -> (r: bool)
        ensures
            r == (crosswalks_view(a@) == crosswalks_view(b@)),
    {
        if a.len() != b.len() {
            proof {
                assert(crosswalks_view(a@).len() != crosswalks_view(b@).len());
            }
            return false;
        }
        let mut k: usize = 0;
        while k < a.len()
            invariant
                k <= a.len(),
                a.len() == b.len(),
                forall|j: int| 0 <= j < k ==> a@[j].0 == b@[j].0 && a@[j].1@ == b@[j].1@,
            decreases a.len() - k,
        {
            if a[k].0 != b[k].0 || !a[k].1.same_as(&b[k].1) {
                proof {
                    assert(crosswalks_view(a@)[k as int] == (a@[k as int].0, a@[k as int].1@));
                    assert(crosswalks_view(b@)[k as int] == (b@[k as int].0, b@[k as int].1@));
                }
                return false;
            }
            k = k + 1;
        }
        proof {
            assert(crosswalks_view(a@) =~= crosswalks_view(b@));
        }
        true
    }

    /// Whether the two logs are the same: name, commands, and all the rest.
    pub fn same_as(&self, other: &MapEdits) -> (r: bool)
        ensures
            r == (self@ == other@),
    {
        let links = match (&self.proposal_link, &other.proposal_link) {
            (None, None) => true,
            (Some(a), Some(b)) => *a == *b,
            _ => false,
        };
        links && self.edits_name == other.edits_name && self.merge_zones == other.merge_zones
            && same_commands(&self.commands, &other.commands) && same_vec(
            &self.changed_roads,
            &other.changed_roads,
        ) && same_vec(&self.changed_routes, &other.changed_routes) && Self::same_intersections(
            &self.original_intersections,
            &other.original_intersections,
        ) && Self::same_crosswalks(&self.original_crosswalks, &other.original_crosswalks)
            && same_texts(
            &self.proposal_description,
            &other.proposal_description,
        )
    }

    /// What is derived from the commands.
    pub open spec fn derived(self) -> DerivedView {
        DerivedView {
            changed_roads: self.changed_roads@,
            original_intersections: intersections_view(self.original_intersections@),
            original_crosswalks: crosswalks_view(self.original_crosswalks@),
            changed_routes: self.changed_routes@,
        }
    }
}

} // verus!
